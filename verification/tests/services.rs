use tstub::headers::build_headers;
use tstub::headers::unbuild_headers;
use tstub::headers::Headers;
use tstub::store::TriggerRow;
use tstub::templates::Template;
use tstub::templates::TemplateService;
use tstub::triggers::Trigger;
use tstub::triggers::TriggerService;
use tstub::triggers::UpdateError;

fn test_conn() -> rusqlite::Connection {
    let conn = rusqlite::Connection::open_in_memory().unwrap();
    conn.execute(
        "CREATE TABLE Triggers (id INTEGER PRIMARY KEY AUTOINCREMENT, type TEXT, \
         expression TEXT, comment TEXT, active BOOL, headers TEXT)",
        [],
    )
    .unwrap();
    conn.execute(
        "CREATE TABLE Templates (id INTEGER PRIMARY KEY AUTOINCREMENT, template TEXT, \
         comment TEXT, type TEXT)",
        [],
    )
    .unwrap();
    conn
}

fn sample_trigger(headers_raw: &str) -> Trigger {
    Trigger {
        id: 0,
        msg_type: "http".to_string(),
        expression: "GET /x".to_string(),
        description: "t1".to_string(),
        is_active: true,
        headers: build_headers(headers_raw).unwrap(),
    }
}

#[test]
fn add_makes_trigger_visible_in_cache_and_in_fresh_load() {
    let conn = test_conn();
    let mut svc = TriggerService::new(&conn).unwrap();
    let id = svc.add_trigger(&conn, sample_trigger("a=1,b=2,")).unwrap();

    let with_id: Vec<&Trigger> = svc.list().iter().filter(|t| t.id == id).collect();
    assert_eq!(with_id.len(), 1);
    assert_eq!(with_id[0].msg_type, "http");

    let fresh = TriggerService::new(&conn).unwrap();
    let loaded: Vec<&Trigger> = fresh.list().iter().filter(|t| t.id == id).collect();
    assert_eq!(loaded.len(), 1);
    assert_eq!(loaded[0].msg_type, "http");
    assert_eq!(loaded[0].expression, "GET /x");
    assert_eq!(loaded[0].description, "t1");
    assert!(loaded[0].is_active);
    assert_eq!(loaded[0].headers.entries(), with_id[0].headers.entries());
}

#[test]
fn remove_drops_trigger_from_cache_and_from_fresh_load() {
    let conn = test_conn();
    let mut svc = TriggerService::new(&conn).unwrap();
    let id = svc.add_trigger(&conn, sample_trigger("a=1,")).unwrap();
    let other = svc.add_trigger(&conn, sample_trigger("b=2,")).unwrap();

    svc.remove_trigger(&conn, id).unwrap();
    assert!(svc.list().iter().all(|t| t.id != id));
    assert!(svc.list().iter().any(|t| t.id == other));

    let fresh = TriggerService::new(&conn).unwrap();
    assert!(fresh.list().iter().all(|t| t.id != id));
    assert!(fresh.list().iter().any(|t| t.id == other));
}

#[test]
fn remove_of_absent_id_is_idempotent_success() {
    let conn = test_conn();
    let mut svc = TriggerService::new(&conn).unwrap();
    svc.remove_trigger(&conn, 42).unwrap();
    assert!(svc.list().is_empty());
}

#[test]
fn update_of_absent_id_fails_without_touching_cache_or_store() {
    let conn = test_conn();
    let mut svc = TriggerService::new(&conn).unwrap();
    let id = svc.add_trigger(&conn, sample_trigger("a=1,")).unwrap();

    let mut ghostly = sample_trigger("c=3,");
    ghostly.id = id + 100;
    let r = svc.update_trigger(&conn, ghostly);
    assert!(matches!(r, Err(UpdateError::NotFound)));

    assert_eq!(svc.list().len(), 1);
    assert_eq!(svc.list()[0].id, id);
    assert_eq!(unbuild_headers(&svc.list()[0].headers), "a=1,");

    let fresh = TriggerService::new(&conn).unwrap();
    assert_eq!(fresh.list().len(), 1);
    assert_eq!(fresh.list()[0].id, id);
    assert_eq!(unbuild_headers(&fresh.list()[0].headers), "a=1,");
}

#[test]
fn many_adds_receive_distinct_ids_and_all_are_kept() {
    let conn = test_conn();
    let mut svc = TriggerService::new(&conn).unwrap();
    let start = svc.list().len();
    let mut ids: Vec<u32> = Vec::new();
    for i in 0..5 {
        let mut t = sample_trigger("a=1,");
        t.description = format!("caller {}", i);
        ids.push(svc.add_trigger(&conn, t).unwrap());
    }
    for i in 0..ids.len() {
        for j in 0..i {
            assert_ne!(ids[i], ids[j]);
        }
    }
    assert_eq!(svc.list().len(), start + 5);
}

#[test]
fn store_failure_surfaces_and_leaves_cache_untouched() {
    let conn = test_conn();
    let mut svc = TriggerService::new(&conn).unwrap();
    svc.add_trigger(&conn, sample_trigger("a=1,")).unwrap();
    conn.execute("DROP TABLE Triggers", []).unwrap();
    let r = svc.add_trigger(&conn, sample_trigger("b=2,"));
    assert!(r.is_err());
    assert_eq!(svc.list().len(), 1);
}

#[test]
fn load_folds_duplicate_ids_with_later_row_winning() {
    let rows = vec![
        TriggerRow {
            id: 1,
            msg_type: "http".to_string(),
            expression: "old".to_string(),
            description: "d".to_string(),
            is_active: true,
            headers: "a=1,".to_string(),
        },
        TriggerRow {
            id: 1,
            msg_type: "http".to_string(),
            expression: "new".to_string(),
            description: "d".to_string(),
            is_active: false,
            headers: "a=2,".to_string(),
        },
    ];
    let svc = TriggerService::from_rows(rows).unwrap();
    assert_eq!(svc.list().len(), 1);
    assert_eq!(svc.list()[0].expression, "new");
    assert_eq!(unbuild_headers(&svc.list()[0].headers), "a=2,");
}

#[test]
fn load_with_malformed_header_row_is_fatal() {
    let rows = vec![TriggerRow {
        id: 1,
        msg_type: "http".to_string(),
        expression: "e".to_string(),
        description: "d".to_string(),
        is_active: true,
        headers: "broken".to_string(),
    }];
    assert!(TriggerService::from_rows(rows).is_err());
}

#[test]
fn refresh_picks_up_external_store_changes() {
    let conn = test_conn();
    let mut svc = TriggerService::new(&conn).unwrap();
    conn.execute(
        "INSERT INTO Triggers (type, expression, headers, comment, active) \
         VALUES ('http', 'GET /y', 'a=1,', 'outside', 1)",
        [],
    )
    .unwrap();
    assert!(svc.list().is_empty());
    svc.refresh(&conn).unwrap();
    assert_eq!(svc.list().len(), 1);
    assert_eq!(svc.list()[0].description, "outside");
}

#[test]
fn end_to_end_trigger_lifecycle() {
    let conn = test_conn();
    let mut svc = TriggerService::new(&conn).unwrap();
    assert!(svc.list().is_empty());

    let mut h = Headers::new();
    h.insert("a".to_string(), "1".to_string());
    h.insert("b".to_string(), "2".to_string());
    let t = Trigger {
        id: 0,
        msg_type: "http".to_string(),
        expression: "GET /x".to_string(),
        description: "t1".to_string(),
        is_active: true,
        headers: h,
    };
    let id = svc.add_trigger(&conn, t).unwrap();
    assert_eq!(id, 1);

    assert_eq!(svc.list().len(), 1);
    let listed = &svc.list()[0];
    assert_eq!(listed.id, 1);
    assert_eq!(listed.headers.entries().len(), 2);
    assert_eq!(listed.headers.entries()[0], ("a".to_string(), "1".to_string()));
    assert_eq!(listed.headers.entries()[1], ("b".to_string(), "2".to_string()));

    let mut updated = sample_trigger("a=1,b=2,");
    updated.id = 1;
    updated.is_active = false;
    svc.update_trigger(&conn, updated).unwrap();
    assert_eq!(svc.list().len(), 1);
    assert!(!svc.list()[0].is_active);

    svc.remove_trigger(&conn, 1).unwrap();
    assert!(svc.list().is_empty());
}

#[test]
fn template_add_is_visible_in_cache_and_in_fresh_load() {
    let conn = test_conn();
    let mut svc = TemplateService::new(&conn).unwrap();
    let t = Template::new(0, "{\"ok\": true}", "answer".to_string(), "json").unwrap();
    let id = svc.add_template(&conn, t).unwrap();
    assert_eq!(id, 1);

    assert_eq!(svc.list().len(), 1);
    assert_eq!(svc.list()[0].name, "answer");

    let fresh = TemplateService::new(&conn).unwrap();
    assert_eq!(fresh.list().len(), 1);
    assert_eq!(fresh.list()[0].id, id);
    assert_eq!(fresh.list()[0].name, "answer");
    let (text, kind) = fresh.list()[0].body.get_text_and_type();
    assert_eq!(kind, "json");
    assert_eq!(text, "{\"ok\":true}");
}

#[test]
fn template_remove_and_update_mirror_the_trigger_rules() {
    let conn = test_conn();
    let mut svc = TemplateService::new(&conn).unwrap();
    let t = Template::new(0, "x", "n".to_string(), "xml").unwrap();
    let id = svc.add_template(&conn, t).unwrap();

    let mut absent = Template::new(0, "y", "m".to_string(), "regex").unwrap();
    absent.id = id + 50;
    assert!(matches!(
        svc.update_template(&conn, absent),
        Err(tstub::templates::UpdateError::NotFound)
    ));
    assert_eq!(svc.list().len(), 1);

    let mut renamed = Template::new(0, "z", "renamed".to_string(), "xml").unwrap();
    renamed.id = id;
    svc.update_template(&conn, renamed).unwrap();
    assert_eq!(svc.list()[0].name, "renamed");

    svc.remove_template(&conn, id).unwrap();
    assert!(svc.list().is_empty());
    let fresh = TemplateService::new(&conn).unwrap();
    assert!(fresh.list().is_empty());
}

#[test]
fn template_load_rejects_unknown_persisted_kind() {
    let conn = test_conn();
    conn.execute(
        "INSERT INTO Templates (template, comment, type) VALUES ('x', 'bad', 'csv')",
        [],
    )
    .unwrap();
    assert!(TemplateService::new(&conn).is_err());
}

#[test]
fn ports_carry_the_configured_port() {
    let p = tstub::config::Ports::new(8080);
    assert_eq!(p.get_port(), 8080);
}
