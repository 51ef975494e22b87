use s_curve::db::uuid_sql::{case_uuid, match_uuid_clause};

#[test]
fn case_uuid_names_the_column_behind_the_dot() {
    assert_eq!(
        case_uuid("t.id"),
        "CASE WHEN typeof(t.id)='blob' THEN lower(substr(hex(t.id),1,8) || '-' || substr(hex(t.id),9,4) || '-' || substr(hex(t.id),13,4) || '-' || substr(hex(t.id),17,4) || '-' || substr(hex(t.id),21)) ELSE t.id END as id"
    );
}

#[test]
fn case_uuid_without_a_dot_keeps_the_name() {
    let sql = case_uuid("source_task_id");
    assert!(sql.starts_with("CASE WHEN typeof(source_task_id)='blob' THEN "));
    assert!(sql.ends_with(" ELSE source_task_id END as source_task_id"));
}

#[test]
fn case_uuid_takes_what_follows_the_last_dot() {
    assert!(case_uuid("main.d.target_task_id").ends_with(" END as target_task_id"));
    assert!(case_uuid("d.").ends_with(" ELSE d. END as "));
    assert!(case_uuid("").ends_with(" ELSE  END as "));
}

#[test]
fn match_uuid_clause_covers_both_storage_forms() {
    assert_eq!(
        match_uuid_clause("t.project_id"),
        "((typeof(t.project_id)='blob' AND hex(t.project_id)=upper(replace(?,'-',''))) OR (typeof(t.project_id)='text' AND t.project_id = ?))"
    );
}
