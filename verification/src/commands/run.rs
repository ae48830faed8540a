//! What running a provider comes to: the arguments for the program to
//! launch, or the report that no provider has the name.

use crate::utils::sorting::views;
use vstd::prelude::*;
use vstd::string::*;

verus! {

/// The lines that report that no provider has a name: the error, and then
/// the names that exist, where they could be read.
pub open spec fn not_found_lines(name: Seq<char>, available: Option<Seq<Seq<char>>>) -> Seq<
    Seq<char>,
> {
    let error = seq!["错误: 未找到配置 '"@ + name + "'"@];
    match available {
        None => error,
        Some(names) => if names.len() == 0 {
            error.push("提示: 数据库中没有配置，请先在 cc-switch 中添加。"@)
        } else {
            error.push("提示: 可用配置如下："@) + Seq::new(names.len(), |i: int| "  - "@ + names[i])
        },
    }
}

/// The arguments with which the program is launched: the settings file, then
/// what the user passed on.
pub open spec fn launch_arguments(settings: Seq<char>, args: Seq<Seq<char>>) -> Seq<Seq<char>> {
    seq!["--settings"@, settings] + args
}

/// The exit code after a name that no provider has.
pub const NOT_FOUND_EXIT: i32 = 1;

/// How a run ends when no provider has the name: nothing is launched, the
/// lines are printed and the program exits with the code.
pub struct NotFound {
    pub lines: Vec<String>,
    pub exit_code: i32,
}

/// How a run ends when no provider has the name: with the report of the
/// names that exist, where they could be read, and with exit code 1.
pub fn not_found(name: &str, available: Option<&Vec<String>>) -> (end: NotFound)
    ensures
        end.exit_code == NOT_FOUND_EXIT,
        views(end.lines@) == not_found_lines(
            name@,
            match available {
                Some(names) => Some(views(names@)),
                None => None,
            },
        ),
{
    let mut error = "错误: 未找到配置 '".to_owned();
    error.append(name);
    error.append("'");
    let mut lines: Vec<String> = Vec::new();
    lines.push(error);
    let ghost head = views(lines@);
    assert(head =~= seq!["错误: 未找到配置 '"@ + name@ + "'"@]);
    match available {
        None => {},
        Some(names) => {
            let n = names.len();
            if n == 0 {
                lines.push("提示: 数据库中没有配置，请先在 cc-switch 中添加。".to_owned());
                assert(views(lines@) =~= head.push(
                    "提示: 数据库中没有配置，请先在 cc-switch 中添加。"@,
                ));
            } else {
                lines.push("提示: 可用配置如下：".to_owned());
                let ghost top = views(lines@);
                assert(top =~= head.push("提示: 可用配置如下："@));
                let ghost all = views(names@);
                let mut i: usize = 0;
                while i < n
                    invariant
                        i <= n,
                        n == names.len(),
                        all == views(names@),
                        views(lines@) =~= top + Seq::new(i as nat, |k: int| "  - "@ + all[k]),
                    decreases n - i,
                {
                    let mut line = "  - ".to_owned();
                    line.append(names[i].as_str());
                    let ghost before = views(lines@);
                    lines.push(line);
                    assert(views(lines@) =~= before.push("  - "@ + all[i as int]));
                    i += 1;
                }
            }
        },
    }
    NotFound { lines, exit_code: NOT_FOUND_EXIT }
}

/// The arguments for the program to launch.
pub fn arguments(settings_path: &str, args: &[String]) -> (argv: Vec<String>)
    ensures
        views(argv@) == launch_arguments(settings_path@, views(args@)),
{
    let mut argv: Vec<String> = Vec::new();
    argv.push("--settings".to_owned());
    argv.push(settings_path.to_owned());
    let ghost head = views(argv@);
    assert(head =~= seq!["--settings"@, settings_path@]);
    let n = args.len();
    let ghost all = views(args@);
    let mut i: usize = 0;
    while i < n
        invariant
            i <= n,
            n == args.len(),
            all == views(args@),
            views(argv@) =~= head + all.take(i as int),
        decreases n - i,
    {
        let ghost before = views(argv@);
        argv.push(args[i].clone());
        assert(views(argv@) =~= before.push(args@[i as int]@));
        i += 1;
    }
    assert(all.take(n as int) =~= all);
    argv
}

} // verus!
