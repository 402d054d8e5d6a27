use model_generator::commands::{
    batch_file_name, batch_seed, batch_tree_name, config_format_for_extension,
    config_format_for_path, BatchArgs, ConfigFormat, GenerateArgs, GenerateOutputFormat,
};
use model_generator::connector::manifest_rows;

#[test]
fn config_format_follows_extension() {
    assert_eq!(config_format_for_path("cfg.json"), ConfigFormat::Json);
    assert_eq!(config_format_for_path("dir/cfg.JSON"), ConfigFormat::Json);
    assert_eq!(config_format_for_path("cfg.toml"), ConfigFormat::Toml);
    assert_eq!(config_format_for_path("cfg"), ConfigFormat::Toml);
    assert_eq!(config_format_for_path("cfg.jsonx"), ConfigFormat::Toml);
    assert_eq!(config_format_for_extension(Some("JsOn")), ConfigFormat::Json);
    assert_eq!(config_format_for_extension(Some("jso")), ConfigFormat::Toml);
    assert_eq!(config_format_for_extension(None), ConfigFormat::Toml);
}

#[test]
fn xml_is_written_only_with_a_path_and_the_xml_format() {
    let mut args = GenerateArgs {
        config: "pdag_config.toml".to_string(),
        out: Some("model.xml".to_string()),
        format: GenerateOutputFormat::Xml,
        event_tree: false,
    };
    assert_eq!(args.xml_output_path(), Some("model.xml".to_string()));
    args.format = GenerateOutputFormat::SummaryOnly;
    assert_eq!(args.xml_output_path(), None);
    args.format = GenerateOutputFormat::Xml;
    args.out = None;
    assert_eq!(args.xml_output_path(), None);
}

#[test]
fn batch_count_must_be_positive() {
    let mut args = BatchArgs {
        config: "pdag_config.toml".to_string(),
        count: 0,
        out_dir: "out".to_string(),
        manifest: true,
        event_tree: false,
    };
    assert_eq!(args.check_count(), Err("--count must be >= 1".to_string()));
    args.count = 3;
    assert_eq!(args.check_count(), Ok(()));
}

#[test]
fn batch_seeds_and_names() {
    assert_eq!(batch_seed(123, 0), 123);
    assert_eq!(batch_seed(123, 4), 127);
    assert_eq!(batch_tree_name("model", 0), "model-1");
    assert_eq!(batch_tree_name("model", 9), "model-10");
    assert_eq!(batch_file_name("model", 2), "model_3.xml");
}

#[test]
fn manifest_has_one_row_per_model() {
    let paths = vec!["out/m_1.xml".to_string(), "out/m_2.xml".to_string(), "out/m_3.xml".to_string()];
    let rows = manifest_rows(&paths, &vec![123, 124, 125], &vec![44, 40, 51], &vec![78, 70, 90]);
    assert_eq!(rows.len(), 3);
    let r = &rows[1];
    assert_eq!(r.keys(), vec!["edge_count", "node_count", "path", "seed"]);
    assert_eq!(r.get("path").unwrap(), "out/m_2.xml");
    assert_eq!(r.get("seed").unwrap(), "124");
    assert_eq!(r.get("node_count").unwrap(), "40");
    assert_eq!(r.get("edge_count").unwrap(), "70");
}

#[test]
fn config_format_reads_the_file_name_after_directories() {
    assert_eq!(config_format_for_path("/tmp/cfg.json"), ConfigFormat::Json);
    assert_eq!(config_format_for_path("/etc/model/CFG.Json"), ConfigFormat::Json);
    assert_eq!(config_format_for_path("configs/run.toml"), ConfigFormat::Toml);
    assert_eq!(config_format_for_path("configs.json/run"), ConfigFormat::Toml);
}
