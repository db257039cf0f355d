use rebalancer::paths::determine_config_path;
use rebalancer::paths::determine_output_path;
use rebalancer::paths::PathError;

#[test]
fn output_path_uses_explicit_argument() {
    let r = determine_output_path(Some("chosen.csv".to_string()), &"in.csv".to_string());
    assert_eq!(r.unwrap(), "chosen.csv");
}

#[test]
fn output_path_derived_from_input_stem() {
    let r = determine_output_path(None, &"test/input.csv".to_string());
    assert_eq!(r.unwrap(), "test/input-orders.csv");

    let r2 = determine_output_path(None, &"portfolio.csv".to_string());
    assert_eq!(r2.unwrap(), "portfolio-orders.csv");

    let r3 = determine_output_path(None, &"dir/archive.tar.gz".to_string());
    assert_eq!(r3.unwrap(), "dir/archive.tar-orders.csv");

    let r4 = determine_output_path(None, &"noext".to_string());
    assert_eq!(r4.unwrap(), "noext-orders.csv");

    let r5 = determine_output_path(None, &".hidden".to_string());
    assert_eq!(r5.unwrap(), ".hidden-orders.csv");
}

#[test]
fn output_path_without_file_name_is_an_error() {
    let r = determine_output_path(None, &"dir/".to_string());
    assert!(matches!(r, Err(PathError::NoFileName)));

    let r2 = determine_output_path(None, &"".to_string());
    assert!(matches!(r2, Err(PathError::NoFileName)));

    let r3 = determine_output_path(None, &"a/..".to_string());
    assert!(matches!(r3, Err(PathError::NoFileName)));
}

#[test]
fn test_determine_config_path() {
    // An explicitly provided config path is used as it is.
    let result = determine_config_path(
        &"test/input.csv".to_string(),
        Some("custom/config.toml".to_string()),
        false,
    )
    .unwrap();
    assert_eq!(result, "custom/config.toml");

    // The default path sits beside the input file.
    let result2 = determine_config_path(&"test/portfolio.csv".to_string(), None, true).unwrap();
    assert_eq!(result2, "test/config.toml");

    let result3 = determine_config_path(&"portfolio.csv".to_string(), None, true).unwrap();
    assert_eq!(result3, "config.toml");

    // When no file exists at the default path, the error names it.
    let result4 = determine_config_path(&"test/portfolio2.csv".to_string(), None, false);
    match result4 {
        Err(e) => {
            assert!(e.message().contains("Config file not found"));
            assert!(e.message().contains("test/config.toml"));
        },
        Ok(_) => panic!("expected an error when config.toml does not exist"),
    }

    // An input with no parent directory cannot yield a default.
    let result5 = determine_config_path(&"".to_string(), None, true);
    assert!(matches!(result5, Err(PathError::NoParent)));
}
