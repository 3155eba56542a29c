use rom::cli::{
    monitor_args, nix_verbosity_flag, parse_args_with_separator, plan, program_name,
    replace_command_with_exit, Cli, Commands, Invocation, NixCommand,
};
use rom::types::InputMode;

fn strings(v: &[&str]) -> Vec<String> {
    v.iter().map(|s| s.to_string()).collect()
}

#[test]
fn test_replace_command_with_exit() {
    let args = vec!["nixpkgs#hello".to_string(), "--command".to_string(), "bash".to_string()];

    let result = replace_command_with_exit(&args);
    assert_eq!(result[0], "nixpkgs#hello");
    assert!(result.contains(&"--command".to_string()));
    assert!(result.contains(&"exit".to_string()));
    assert!(!result.contains(&"bash".to_string()));
}

#[test]
fn test_replace_command_short_form() {
    let args = vec!["nixpkgs#hello".to_string(), "-c".to_string(), "echo test".to_string()];

    let result = replace_command_with_exit(&args);
    assert_eq!(result[0], "nixpkgs#hello");
    assert!(result.contains(&"exit".to_string()));
    assert!(!result.contains(&"echo test".to_string()));
}

#[test]
fn test_parse_args_with_separator() {
    let args = vec!["nixpkgs#hello".to_string(), "--".to_string(), "--help".to_string()];
    let (before, after) = parse_args_with_separator(&args);
    assert_eq!(before, vec!["nixpkgs#hello".to_string()]);
    assert_eq!(after, vec!["--help".to_string()]);

    let args = vec!["nixpkgs#hello".to_string(), "--help".to_string()];
    let (before, after) = parse_args_with_separator(&args);
    assert_eq!(before, vec!["nixpkgs#hello".to_string(), "--help".to_string()]);
    assert_eq!(after, Vec::<String>::new());

    let args = vec![
        "nixpkgs#hello".to_string(),
        "--".to_string(),
        "--option".to_string(),
        "foo".to_string(),
        "bar".to_string(),
    ];
    let (before, after) = parse_args_with_separator(&args);
    assert_eq!(before, vec!["nixpkgs#hello".to_string()]);
    assert_eq!(after, vec!["--option".to_string(), "foo".to_string(), "bar".to_string()]);

    let args = vec!["--".to_string(), "--help".to_string()];
    let (before, after) = parse_args_with_separator(&args);
    assert_eq!(before, Vec::<String>::new());
    assert_eq!(after, vec!["--help".to_string()]);
}

#[test]
fn test_parse_args_with_separator_passthrough() {
    let args = ["--", "--rebuild", "--refresh"];
    let args: Vec<String> = args.iter().map(|s| s.to_string()).collect();
    let (package_and_rom_args, nix_flags) = rom::cli::parse_args_with_separator(&args);
    assert!(package_and_rom_args.is_empty(), "package_and_rom_args should be empty");
    assert_eq!(nix_flags, vec!["--rebuild", "--refresh"], "nix_flags should contain passthrough args");
}

#[test]
fn separator_only_first_one_splits() {
    let args = strings(&["a", "--", "b", "--", "c"]);
    let (before, after) = parse_args_with_separator(&args);
    assert_eq!(before, strings(&["a"]));
    assert_eq!(after, strings(&["b", "--", "c"]));
}

#[test]
fn replace_command_appends_exit_without_command() {
    let result = replace_command_with_exit(&strings(&["nixpkgs#hello"]));
    assert_eq!(result, strings(&["nixpkgs#hello", "--command", "sh", "-c", "exit"]));
}

#[test]
fn verbosity_flag_has_at_least_one_v() {
    assert_eq!(nix_verbosity_flag(0), "-v");
    assert_eq!(nix_verbosity_flag(1), "-v");
    assert_eq!(nix_verbosity_flag(3), "-vvv");
}

#[test]
fn monitor_args_for_each_command() {
    let pk = strings(&["nixpkgs#hello"]);
    let fl = strings(&["--rebuild"]);
    assert_eq!(
        monitor_args(NixCommand::Build, 0, &pk, &fl),
        strings(&["build", "-v", "--log-format", "internal-json", "nixpkgs#hello", "--rebuild"])
    );
    assert_eq!(
        monitor_args(NixCommand::Develop, 2, &pk, &fl),
        strings(&[
            "develop",
            "-vv",
            "--log-format",
            "internal-json",
            "--command",
            "true",
            "nixpkgs#hello",
            "--rebuild"
        ])
    );
    assert_eq!(
        monitor_args(NixCommand::Shell, 1, &strings(&["nixpkgs#hello", "-c", "zsh"]), &fl),
        strings(&[
            "shell",
            "-v",
            "--log-format",
            "internal-json",
            "nixpkgs#hello",
            "--rebuild",
            "--command",
            "sh",
            "-c",
            "exit"
        ])
    );
}

fn cli(command: Option<Commands>, json: bool) -> Cli {
    Cli {
        command,
        json,
        silent: false,
        format: "tree".to_string(),
        legend: "table".to_string(),
        summary: "concise".to_string(),
    }
}

#[test]
fn plan_rejects_build_without_package() {
    let c = cli(Some(Commands::Build { args: strings(&["--", "--rebuild"]) }), false);
    match plan("rom", &c, &[]) {
        Err(e) => assert!(e.starts_with("No package or flake specified for nix build")),
        Ok(_) => panic!("expected an error"),
    }
}

#[test]
fn plan_rejects_develop_and_shell_without_package() {
    let c = cli(Some(Commands::Develop { args: strings(&["--", "--impure"]) }), false);
    match plan("rom", &c, &[]) {
        Err(e) => assert!(e.contains("nix develop")),
        Ok(_) => panic!("expected an error"),
    }
    let c = cli(Some(Commands::Shell { args: Vec::new() }), false);
    match plan("rom", &c, &[]) {
        Err(e) => assert!(e.contains("rom shell nixpkgs#python3 -- --pure")),
        Ok(_) => panic!("expected an error"),
    }
}

#[test]
fn plan_wraps_build_with_package() {
    let c = cli(Some(Commands::Build { args: strings(&["nixpkgs#hello", "--", "--rebuild"]) }), false);
    match plan("rom", &c, &[]) {
        Ok(Invocation::Wrap { command, packages, nix_flags }) => {
            assert_eq!(command, NixCommand::Build);
            assert_eq!(packages, strings(&["nixpkgs#hello"]));
            assert_eq!(nix_flags, strings(&["--rebuild"]));
        },
        _ => panic!("expected a wrapped build"),
    }
}

#[test]
fn plan_streams_json_without_arguments() {
    let c = cli(Some(Commands::Build { args: Vec::new() }), true);
    match plan("rom", &c, &[]) {
        Ok(Invocation::Stream(config)) => assert_eq!(config.input_mode, InputMode::Json),
        _ => panic!("expected a stream"),
    }
    let c = cli(None, false);
    match plan("rom", &c, &[]) {
        Ok(Invocation::Stream(config)) => assert_eq!(config.input_mode, InputMode::Human),
        _ => panic!("expected a stream"),
    }
}

#[test]
fn plan_follows_program_name() {
    let c = cli(None, false);
    match plan("rom-shell", &c, &strings(&["nixpkgs#hello"])) {
        Ok(Invocation::Wrap { command, packages, .. }) => {
            assert_eq!(command, NixCommand::Shell);
            assert_eq!(packages, strings(&["nixpkgs#hello"]));
        },
        _ => panic!("expected a wrapped shell"),
    }
    assert_eq!(program_name(Some("/usr/bin/rom-build")), "rom-build");
    assert_eq!(program_name(None), "rom");
    assert_eq!(program_name(Some("/")), "rom");
}

#[test]
fn test_missing_expression_errors() {
    // `rom build --tree`: a flag of rom's own is no package.
    let c = cli(Some(Commands::Build { args: strings(&["--tree"]) }), false);
    match plan("rom", &c, &[]) {
        Err(err) => assert!(
            err.contains("No package or flake specified for nix build"),
            "should print missing expression error, got: {}",
            err
        ),
        Ok(_) => panic!("should fail with missing expression"),
    }
}

#[test]
fn test_passthrough_args_without_expression_errors() {
    let c = cli(
        Some(Commands::Build { args: strings(&["--tree", "--", "--rebuild", "--refresh"]) }),
        false,
    );
    match plan("rom", &c, &[]) {
        Err(err) => assert!(
            err.contains("No package or flake specified for nix build"),
            "should print missing expression error, got: {}",
            err
        ),
        Ok(_) => panic!("should fail with missing expression even with passthrough args"),
    }
}

#[test]
fn test_valid_expression_with_passthrough_args_succeeds() {
    let c = cli(
        Some(Commands::Build { args: strings(&["--tree", "nixpkgs#hello", "--", "--rebuild"]) }),
        false,
    );
    match plan("rom", &c, &[]) {
        Err(err) => assert!(
            !err.contains("No package or flake specified for nix build"),
            "should not print missing expression error, got: {}",
            err
        ),
        Ok(Invocation::Wrap { command, packages, nix_flags }) => {
            assert_eq!(command, NixCommand::Build);
            assert_eq!(packages, strings(&["--tree", "nixpkgs#hello"]));
            assert_eq!(nix_flags, strings(&["--rebuild"]));
        },
        Ok(_) => panic!("expected a wrapped build"),
    }
}

#[test]
fn plan_rejects_symlinked_build_with_only_flags() {
    match plan("rom-build", &cli(None, false), &strings(&["-L", "--", "--impure"])) {
        Err(e) => assert!(e.starts_with("No package or flake specified for nix build")),
        Ok(_) => panic!("expected an error"),
    }
}
