use decoder::cli::{
    arch_from, default_arguments, format_from, handle_args, parse_arch, parse_command,
    parse_format, topic, ArgValue, Argument, Arguments, ArgsOutcome, InterCmd, OutputFormat,
    HELP_FOOTER, HELP_HEADER,
};
use decoder::decoder::ArchSize;

fn args(v: &[&str]) -> Vec<String> {
    v.iter().map(|s| String::from(*s)).collect()
}

fn run(v: &[&str]) -> Arguments {
    match handle_args(args(v)) {
        ArgsOutcome::Run(a) => a,
        other => panic!("unexpected outcome {:?}", other),
    }
}

fn text(a: &Arguments, name: &str) -> String {
    match a.get_val(name) {
        ArgValue::Text(t) => t.clone(),
        ArgValue::Bool(b) => panic!("switch {}", b),
    }
}

fn switch(a: &Arguments, name: &str) -> bool {
    match a.get_val(name) {
        ArgValue::Bool(b) => *b,
        ArgValue::Text(t) => panic!("text {}", t),
    }
}

#[test]
fn options_take_the_following_argument() {
    let a = run(&["-t", "tree32.json", "--input", "a.out", "-l", "5"]);
    assert_eq!(text(&a, "tree"), "tree32.json");
    assert_eq!(text(&a, "input"), "a.out");
    assert_eq!(text(&a, "lines"), "5");
    assert_eq!(text(&a, "output"), "-");
    assert_eq!(text(&a, "arch"), "x64");
}

#[test]
fn switches_are_turned_on() {
    let a = run(&["--no-infer", "-I"]);
    assert!(switch(&a, "no-infer"));
    assert!(switch(&a, "interactive"));
    let b = run(&["-o", "out.txt"]);
    assert!(!switch(&b, "no-infer"));
}

#[test]
fn an_equals_sign_separates_an_option_from_its_value() {
    let a = run(&["--output=out.txt", "-m=16"]);
    assert_eq!(text(&a, "output"), "out.txt");
    assert_eq!(text(&a, "max"), "16");
    match handle_args(args(&["--no-infer=yes"])) {
        ArgsOutcome::UnknownOption(o) => assert_eq!(o, "yes"),
        other => panic!("unexpected {:?}", other),
    }
}

#[test]
fn the_last_value_given_is_kept() {
    let mut a = run(&["-f", "json", "--format", "bytes"]);
    assert_eq!(text(&a, "format"), "bytes");
    assert!(!a.get("format").is_default());
    assert!(a.get("tree").is_default());
}

#[test]
fn refused_command_lines() {
    match handle_args(args(&["-x"])) {
        ArgsOutcome::UnknownOption(o) => assert_eq!(o, "-x"),
        other => panic!("unexpected {:?}", other),
    }
    match handle_args(args(&["-i", "a.out", "--tree"])) {
        ArgsOutcome::MissingValue(o) => assert_eq!(o, "--tree"),
        other => panic!("unexpected {:?}", other),
    }
    match handle_args(args(&["--help", "nothing"])) {
        ArgsOutcome::UnknownHelpTopic(t) => assert_eq!(t, "nothing"),
        other => panic!("unexpected {:?}", other),
    }
}

#[test]
fn help_on_everything() {
    let opts = default_arguments();
    let expected = opts.help_text();
    assert!(opts.help_msg.starts_with(HELP_HEADER));
    assert!(opts.help_msg.ends_with(HELP_FOOTER));
    match handle_args(Vec::new()) {
        ArgsOutcome::Help(t) => assert_eq!(t, expected),
        other => panic!("unexpected {:?}", other),
    }
    match handle_args(args(&["-h"])) {
        ArgsOutcome::Help(t) => assert_eq!(t, expected),
        other => panic!("unexpected {:?}", other),
    }
}

#[test]
fn help_on_one_option() {
    let opts = default_arguments();
    let tree = &opts.raw_args[0];
    let expected = topic(tree);
    assert!(expected.starts_with("-t, --tree"));
    assert!(expected.contains("Default: ./tree64.json"));
    match handle_args(args(&["--help", "tree"])) {
        ArgsOutcome::Help(t) => assert_eq!(t, expected),
        other => panic!("unexpected {:?}", other),
    }
    match handle_args(args(&["-h", "-t"])) {
        ArgsOutcome::Help(t) => assert_eq!(t, expected),
        other => panic!("unexpected {:?}", other),
    }
}

#[test]
fn help_text_is_wrapped() {
    let long = "word ".repeat(40);
    let opts = Arguments::from(Vec::new(), &long, "");
    assert!(!opts.help_msg.contains('\n'));
    assert!(opts.help_text().contains('\n'));
    assert!(opts.help_text().lines().all(|l| l.len() <= 100));
}

#[test]
fn an_option_entry_in_the_help_text() {
    let a = Argument::new("x", "An option", "Longer help", ArgValue::Bool(false), vec!["-x", "--ex"]);
    let entry = a.to_string();
    let pad = " ".repeat(20 - "-x, --ex".len());
    assert_eq!(
        entry,
        format!("\t-x, --ex{} An option\n\t                     Default: false\n", pad)
    );
    let wide = Argument::new("w", &"word ".repeat(30), "", ArgValue::Text(String::from("d")), vec!["-w"]);
    assert!(wide.to_string().contains("word\n\t                     word"));
    assert_eq!(ArgValue::Text(String::from("abc")).to_string(), "abc");
    assert_eq!(ArgValue::Bool(true).to_string(), "true");
}

#[test]
fn arguments_by_flag_and_by_name() {
    let list = vec![
        Argument::new("a", "first", "", ArgValue::Text(String::from("1")), vec!["-a", "-s"]),
        Argument::new("b", "second", "", ArgValue::Bool(false), vec!["-b", "-s"]),
    ];
    let mut opts = Arguments::from(list, "head\n", "foot\n");
    assert!(opts.help_msg.starts_with("head\n\t-a, -s"));
    assert!(opts.help_msg.ends_with("foot\n"));
    assert_eq!(opts.match_flag(&String::from("-a")).unwrap().name, "a");
    assert_eq!(opts.match_flag(&String::from("-s")).unwrap().name, "b");
    assert!(opts.match_flag(&String::from("-z")).is_none());
    opts.match_flag(&String::from("-a")).unwrap().value = Some(ArgValue::Text(String::from("7")));
    assert_eq!(opts.get("a").get_usize(), 7);
    assert_eq!(opts.get("a").get_str(), "7");
    assert!(!opts.get("b").get_bool());
}

#[test]
fn interactive_commands() {
    let c = |s: &str| parse_command(&String::from(s));
    assert_eq!(c("exit\n"), Some((InterCmd::Exit, None)));
    assert_eq!(c("print source.path\n"), Some((InterCmd::Print, Some(String::from("source.path")))));
    assert_eq!(c("set opts.arch  x32 \n"), Some((InterCmd::SetValue, Some(String::from("opts.arch  x32")))));
    assert_eq!(c("load\n"), Some((InterCmd::Load, Some(String::new()))));
    assert_eq!(c("step"), Some((InterCmd::Step, Some(String::new()))));
    assert_eq!(c("parse 0"), Some((InterCmd::Parse, Some(String::from("0")))));
    assert_eq!(c(" exit"), None);
    assert_eq!(c("quit"), None);
}

#[test]
fn architectures_by_name() {
    assert_eq!(parse_arch("x64"), ArchSize::I64);
    assert_eq!(parse_arch("I32"), ArchSize::I32);
    assert_eq!(parse_arch("16"), ArchSize::I16);
    assert_eq!(arch_from("X86"), None);
    assert_eq!(arch_from("i64"), Some(ArchSize::I64));
}

#[test]
fn output_formats_by_name() {
    assert_eq!(parse_format("PrettyPrint"), OutputFormat::PrettyPrint);
    assert_eq!(parse_format("J"), OutputFormat::JSON);
    assert_eq!(parse_format("PlusBytes"), OutputFormat::PlusBytes);
    assert_eq!(format_from("b"), Some(OutputFormat::PlusBytes));
    assert_eq!(format_from("text"), None);
}

#[test]
fn an_option_and_its_value_in_one_argument_or_two() {
    let joined = handle_args(args(&["-o=out.txt", "--no-infer", "-m=16"]));
    let apart = handle_args(args(&["-o", "out.txt", "--no-infer", "-m", "16"]));
    match (joined, apart) {
        (ArgsOutcome::Run(a), ArgsOutcome::Run(b)) => {
            for name in ["output", "max", "no-infer", "format"] {
                assert_eq!(a.get_val(name).to_string(), b.get_val(name).to_string());
            }
        }
        other => panic!("unexpected {:?}", other),
    }
}

#[test]
fn options_are_found_by_every_flag_and_by_name() {
    let a = default_arguments();
    assert_eq!(a.names.len(), a.raw_args.len());
    let total: usize = a.raw_args.iter().map(|x| x.flags.len()).sum();
    assert_eq!(a.flags.len(), total);
    for (i, arg) in a.raw_args.iter().enumerate() {
        assert!(a.names.iter().any(|(n, k)| n == &arg.name && *k == i));
        for f in &arg.flags {
            assert!(a.flags.iter().any(|(g, k)| g == f && *k == i));
        }
    }
}
