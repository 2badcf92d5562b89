use clap::{Arg, ArgAction, ArgMatches, Command};
use scap::cli::{dispatch, Cli, Cmd, CreateArgs, GetArgs, ListArgs, RmArgs, RootArgs};
use scap::cmd::CmdError;

fn switch(name: &'static str) -> Arg {
    Arg::new(name).long(name).action(ArgAction::SetTrue)
}

fn value(name: &'static str) -> Arg {
    Arg::new(name).long(name).action(ArgAction::Set)
}

fn command() -> Command {
    let get = Command::new("get")
        .visible_alias("clone")
        .args(["update", "ssh", "shallow", "look", "silent", "no-recursive", "bare", "parallel"].map(switch))
        .args(["branch", "partial", "vcs"].map(value))
        .arg(Arg::new("targets").action(ArgAction::Append).num_args(0..));
    let list = Command::new("list")
        .args(["exact", "full-path", "unique", "bare"].map(switch))
        .arg(value("vcs"))
        .arg(Arg::new("query"));
    let rm = Command::new("rm").args(["dry-run", "bare"].map(switch)).arg(Arg::new("target").required(true));
    let root = Command::new("root").arg(switch("all"));
    let create =
        Command::new("create").arg(switch("bare")).arg(value("vcs")).arg(Arg::new("target").required(true));
    Command::new("scap").subcommand_required(true).subcommands([get, list, rm, root, create])
}

fn text(m: &ArgMatches, name: &str) -> Option<String> {
    m.get_one::<String>(name).cloned()
}

fn parse(argv: &[&str]) -> Cli {
    let matches = command().get_matches_from(argv);
    let (name, m) = matches.subcommand().expect("a subcommand");
    let cmd = match name {
        "get" => Cmd::Get(GetArgs {
            update: m.get_flag("update"),
            ssh: m.get_flag("ssh"),
            shallow: m.get_flag("shallow"),
            look: m.get_flag("look"),
            silent: m.get_flag("silent"),
            no_recursive: m.get_flag("no-recursive"),
            branch: text(m, "branch"),
            bare: m.get_flag("bare"),
            partial: text(m, "partial"),
            parallel: m.get_flag("parallel"),
            vcs: text(m, "vcs"),
            targets: m.get_many::<String>("targets").map(|t| t.cloned().collect()).unwrap_or_default(),
        }),
        "list" => Cmd::List(ListArgs {
            exact: m.get_flag("exact"),
            vcs: text(m, "vcs"),
            full_path: m.get_flag("full-path"),
            unique: m.get_flag("unique"),
            bare: m.get_flag("bare"),
            query: text(m, "query"),
        }),
        "rm" => Cmd::Rm(RmArgs {
            dry_run: m.get_flag("dry-run"),
            bare: m.get_flag("bare"),
            target: text(m, "target").unwrap_or_default(),
        }),
        "root" => Cmd::Root(RootArgs { all: m.get_flag("all") }),
        "create" => Cmd::Create(CreateArgs {
            vcs: text(m, "vcs"),
            bare: m.get_flag("bare"),
            target: text(m, "target").unwrap_or_default(),
        }),
        other => panic!("unknown command {other}"),
    };
    Cli { cmd }
}

fn dispatch_argv(argv: &[&str]) -> Result<Cmd, CmdError> {
    dispatch(parse(argv))
}

#[test]
fn dispatch_routes_get_to_the_get_command() {
    let err = dispatch_argv(&["scap", "get", "--vcs", "hg", "zchee/scap"])
        .expect_err("unsupported --vcs must fail")
        .message();
    assert!(err.contains("unsupported VCS"), "unexpected error: {err}");
    assert!(err.contains("hg"), "error does not name the rejected vcs: {err}");
}

#[test]
fn dispatch_routes_the_clone_alias_to_the_get_command() {
    let err = dispatch_argv(&["scap", "clone", "--vcs", "hg", "zchee/scap"])
        .expect_err("unsupported --vcs must fail")
        .message();
    assert!(err.contains("unsupported VCS"), "unexpected error: {err}");
}

#[test]
fn dispatch_routes_list_to_the_list_command() {
    let err = dispatch_argv(&["scap", "list", "--vcs", "hg"])
        .expect_err("unsupported --vcs must fail")
        .message();
    assert!(err.contains("unsupported VCS"), "unexpected error: {err}");
}

#[test]
fn dispatch_routes_rm_to_the_rm_command() {
    let err = dispatch_argv(&["scap", "rm", ""]).expect_err("empty target must fail").message();
    assert!(err.contains("repository name is required"), "unexpected error: {err}");
}

#[test]
fn dispatch_routes_create_to_the_create_command() {
    let err = dispatch_argv(&["scap", "create", ""]).expect_err("empty target must fail").message();
    assert!(err.contains("repository name is required"), "unexpected error: {err}");
}

#[test]
fn dispatch_hands_accepted_commands_on() {
    assert!(matches!(
        dispatch_argv(&["scap", "root", "--all"]),
        Ok(Cmd::Root(RootArgs { all: true }))
    ));
    match dispatch_argv(&["scap", "get", "--vcs", "github", "a/b", "c/d"]) {
        Ok(Cmd::Get(args)) => assert_eq!(args.targets, ["a/b", "c/d"]),
        other => panic!("unexpected {other:?}"),
    }
    assert!(matches!(dispatch_argv(&["scap", "rm", "x"]), Ok(Cmd::Rm(_))));
    assert!(matches!(dispatch_argv(&["scap", "create", "--vcs", "git", "x"]), Ok(Cmd::Create(_))));
    assert!(matches!(dispatch_argv(&["scap", "list"]), Ok(Cmd::List(_))));
    let err = dispatch_argv(&["scap", "create", "--vcs", "a\"b", "x"]).expect_err("not git").message();
    assert_eq!(
        err,
        "unsupported VCS: \"a\"b\" (v1 supports git only; see issue tracker for non-git)"
    );
    assert!(matches!(scap::run(parse(&["scap", "list"])), Ok(Cmd::List(_))));
}
