pub mod uuid_sql;
