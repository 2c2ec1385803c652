use furnace::project::parse_project_config;

    fn error_for(config: &str) -> String {
        parse_project_config(config).unwrap_err().to_string()
    }

    #[test]
    fn parses_valid_config_with_comments_and_multiple_locations() {
        let config = parse_project_config(
            r#"// project config
            Project { Name="Example"; }
            -[ sources ]-
            Files { location = "src/*.anvil"; location="tests/**/*.anvil"; }"#,
        )
        .unwrap();
        assert_eq!(config.name, "Example");
        assert_eq!(config.source_patterns, ["src/*.anvil", "tests/**/*.anvil"]);
    }

    #[test]
    fn validates_required_sections_and_name() {
        assert!(parse_project_config("Files { location=\"src/*.anvil\"; }")
            .unwrap_err()
            .to_string()
            .contains("missing Project"));
        assert!(parse_project_config("Project { Name=\"A\"; }")
            .unwrap_err()
            .to_string()
            .contains("missing Files"));
        assert!(
            parse_project_config("Project {} Files { location=\"src/*.anvil\"; }")
                .unwrap_err()
                .to_string()
                .contains("Name is required")
        );
        assert!(
            parse_project_config("Project { Name=\"\"; } Files { location=\"src/*.anvil\"; }")
                .unwrap_err()
                .to_string()
                .contains("cannot be empty")
        );
        assert!(parse_project_config(
            "Project { Name=\"bad/name\"; } Files { location=\"src/*.anvil\"; }"
        )
        .unwrap_err()
        .to_string()
        .contains("may contain only"));
    }

    #[test]
    fn accepts_sections_in_either_order_and_safe_project_names() {
        let config = parse_project_config(
            "Files { location=\"src/Main.anvil\"; } Project { Name=\"app_v2-64\"; }",
        )
        .unwrap();
        assert_eq!(config.name, "app_v2-64");
        assert_eq!(config.source_patterns, ["src/Main.anvil"]);
    }

    #[test]
    fn rejects_invalid_project_names() {
        for name in ["has space", "with.dot", "slash/name", "unicode-λ"] {
            let error = error_for(&format!(
                "Project {{ Name=\"{}\"; }} Files {{ location=\"src/*.anvil\"; }}",
                name
            ));
            assert!(error.contains("Project.Name may contain only"), "{error}");
        }
    }

    #[test]
    fn rejects_empty_files_section_and_location() {
        assert!(error_for("Project { Name=\"App\"; } Files {}")
            .contains("Files requires at least one location"));
        assert!(
            error_for("Project { Name=\"App\"; } Files { location=\"\"; }")
                .contains("Files.location cannot be empty")
        );
    }

    #[test]
    fn rejects_duplicates_and_malformed_syntax() {
        assert!(parse_project_config(
            "Project { Name=\"A\"; Name=\"B\"; } Files { location=\"x\"; }"
        )
        .unwrap_err()
        .to_string()
        .contains("duplicate Project.Name"));
        assert!(
            parse_project_config("Project { Name \"A\"; } Files { location=\"x\"; }")
                .unwrap_err()
                .to_string()
                .contains("invalid .blower syntax at line")
        );
    }

    #[test]
    fn rejects_duplicate_sections_and_unknown_fields() {
        let duplicate_project =
            "Project { Name=\"A\"; } Project { Name=\"B\"; } Files { location=\"x\"; }";
        assert!(error_for(duplicate_project).contains("duplicate Project section"));

        let duplicate_files =
            "Project { Name=\"A\"; } Files { location=\"x\"; } Files { location=\"y\"; }";
        assert!(error_for(duplicate_files).contains("duplicate Files section"));

        assert!(
            error_for("Project { Version=\"1\"; Name=\"A\"; } Files { location=\"x\"; }")
                .contains("unknown Project field 'Version'")
        );
        assert!(
            error_for("Project { Name=\"A\"; } Files { source=\"src/*.anvil\"; }")
                .contains("unknown Files field 'source'")
        );
        assert!(error_for(
            "Unknown { Name=\"A\"; } Project { Name=\"A\"; } Files { location=\"x\"; }"
        )
        .contains("unknown section 'Unknown'"));
    }

    #[test]
    fn malformed_input_reports_the_correct_line() {
        let missing_equals =
            "Project\n{\n    Name \"App\";\n}\nFiles { location=\"src/*.anvil\"; }";
        assert!(error_for(missing_equals).contains("line 3"));

        let unterminated_string = "Project { Name=\"App; }\nFiles { location=\"src/*.anvil\"; }";
        assert!(error_for(unterminated_string).contains("line 1: unterminated string"));

        let unterminated_comment = "-[ never closed\nProject { Name=\"App\"; }";
        assert!(error_for(unterminated_comment).contains("unterminated block comment"));
    }
