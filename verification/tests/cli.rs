use pagerank::cli::{Cli, Commands, headers_flag_enabled};

#[test]
fn header_flag_accepts_yes_true_and_one() {
    assert!(headers_flag_enabled("yes"));
    assert!(headers_flag_enabled("true"));
    assert!(headers_flag_enabled("1"));
}

#[test]
fn header_flag_rejects_everything_else() {
    assert!(!headers_flag_enabled("no"));
    assert!(!headers_flag_enabled("false"));
    assert!(!headers_flag_enabled("0"));
    assert!(!headers_flag_enabled(""));
    assert!(!headers_flag_enabled("YES"));
    assert!(!headers_flag_enabled("yes "));
}

#[test]
fn cli_carries_its_subcommand() {
    let cli = Cli {
        command: Some(Commands::Sort {
            path: "data.csv".to_string(),
            year: "2020".to_string(),
            rows: 10,
            order: true,
        }),
    };
    match cli.command {
        Some(Commands::Sort { path, year, rows, order }) => {
            assert_eq!(path, "data.csv");
            assert_eq!(year, "2020");
            assert_eq!(rows, 10);
            assert!(order);
        }
        _ => panic!("expected the sort subcommand"),
    }

    let none = Cli { command: None };
    assert!(none.command.is_none());
}
