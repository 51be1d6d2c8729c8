use data_pipeline::config::ConnectionConfig;
use data_pipeline::emails::Email;
use data_pipeline::logger::{LogLevel, SimpleLogger};
use data_pipeline::queries;

#[test]
fn config_defaults_and_completeness() {
    let cfg = ConnectionConfig::new(
        String::from("bolt://localhost:7687"),
        String::from("neo4j"),
        String::from("secret"),
        String::from("emails"),
    );
    assert_eq!(cfg.fetch_size, 500);
    assert_eq!(cfg.max_connections, 10);
    assert!(cfg.is_complete());

    let missing = ConnectionConfig::new(
        String::from("bolt://localhost:7687"),
        String::from("neo4j"),
        String::from(""),
        String::from("emails"),
    );
    assert!(!missing.is_complete());
}

#[test]
fn logger_levels_and_prefixes() {
    let logger = SimpleLogger;
    assert!(logger.enabled(LogLevel::Error));
    assert!(logger.enabled(LogLevel::Warn));
    assert!(logger.enabled(LogLevel::Info));
    assert!(!logger.enabled(LogLevel::Debug));
    assert!(!logger.enabled(LogLevel::Trace));
    assert_eq!(logger.prefix(LogLevel::Error), "[-] ERROR");
    assert_eq!(logger.prefix(LogLevel::Info), "[i] INFO");
}

#[test]
fn logger_renders_enabled_lines_only() {
    let logger = SimpleLogger;
    assert_eq!(
        logger.render(LogLevel::Info, "starting"),
        Some(String::from("[i] INFO: starting"))
    );
    assert_eq!(logger.render(LogLevel::Debug, "hidden"), None);
}

#[test]
fn email_holds_its_fields() {
    let e = Email {
        from: String::from("a@x.com"),
        to: String::from("b@x.com"),
        content: String::from("hello"),
    };
    assert_eq!(e.from, "a@x.com");
    assert_eq!(e.to, "b@x.com");
    assert_eq!(e.content, "hello");
}

#[test]
fn query_texts_are_the_protocol() {
    assert!(queries::create_project_query().contains("CREATE (p:Project"));
    assert!(queries::insert_sentiment_query().contains("MERGE (sender)-[r:SENTIMENT]-(receiver)"));
    assert!(queries::delete_project_query().contains("DETACH DELETE"));
    assert!(queries::get_project_query().contains("RETURN p.datasetName"));
    assert!(queries::get_projects_query().contains("RETURN p.datasetName as dName"));
}
