//! What the command line asks for, and what is shown when it could not be done.

use vstd::prelude::*;

use crate::error::failed_views;
use crate::error::Error;
use crate::error::ErrorView;
use crate::error::FailedItem;
use crate::error::FailedView;
use crate::path::PathBuf;
use crate::text::cat;
use crate::text::dec;
use crate::text::holds;
use crate::text::lemma_holds_at;
use crate::text::lines_view;
use crate::text::push_line;
use crate::text::show_size;

verus! {

/// What kind of link is left in place.
#[derive(Debug, Clone, Copy, PartialEq, Eq, Structural)]
pub enum LinkType {
    /// A junction of Windows, which anybody may make.
    Junction,
    /// A symbolic link: all there is on Unix. On Windows it takes special rights.
    Symlink,
}

/// What a move is asked for with.
#[derive(Debug, PartialEq, Eq)]
pub struct MoveArgs {
    /// What to move.
    pub source: PathBuf,
    /// Where to: nothing, or an empty directory.
    pub target: PathBuf,
    /// How many threads to use, where that is said.
    pub threads: Option<usize>,
    /// Only say what would be done.
    pub dry_run: bool,
    pub verbose: bool,
    pub quiet: bool,
    /// Do what is dangerous.
    pub force: bool,
    /// Leave no link.
    pub no_link: bool,
    pub link_type: LinkType,
    /// Refuse a source that is a link.
    pub no_follow_link: bool,
}

/// What a move back is asked for with.
#[derive(Debug, PartialEq, Eq)]
pub struct RestoreArgs {
    /// What was moved, where the link is now.
    pub source: PathBuf,
    /// How many threads to use, where that is said.
    pub threads: Option<usize>,
    /// Only say what would be done.
    pub dry_run: bool,
    pub verbose: bool,
    pub quiet: bool,
}

/// A command that is named.
#[derive(Debug, PartialEq, Eq)]
pub enum Cmd {
    Move(MoveArgs),
    List { json: bool },
    Restore(RestoreArgs),
}

/// What the command line says: a command, or the arguments of a move without its
/// name.
#[derive(Debug, PartialEq, Eq)]
pub struct Cli {
    pub cmd: Option<Cmd>,
    pub move_args: Option<MoveArgs>,
}

/// What is to be done.
#[derive(Debug, PartialEq, Eq)]
pub enum Order {
    Move(MoveArgs),
    List { json: bool },
    Restore(RestoreArgs),
    /// Show how to use the program.
    Help,
}

/// What is to be done. A move need not be named.
pub fn dispatch(cli: Cli) -> (r: Order)
    ensures
        r == match cli.cmd {
            Some(Cmd::Move(args)) => Order::Move(args),
            Some(Cmd::List { json }) => Order::List { json },
            Some(Cmd::Restore(args)) => Order::Restore(args),
            None => match cli.move_args {
                Some(args) => Order::Move(args),
                None => Order::Help,
            },
        },
        r is Help <==> cli.cmd is None && cli.move_args is None,
        cli.cmd matches Some(c) ==> (c is Move <==> r is Move) && (c is List <==> r is List) && (
        c is Restore <==> r is Restore),
{
    let Cli { cmd, move_args } = cli;
    match cmd {
        Some(Cmd::Move(args)) => Order::Move(args),
        Some(Cmd::List { json }) => Order::List { json },
        Some(Cmd::Restore(args)) => Order::Restore(args),
        None => match move_args {
            Some(args) => Order::Move(args),
            None => Order::Help,
        },
    }
}

/// What the process answers with.
pub fn answer(result: &Result<(), Error>) -> (r: i32)
    ensures
        r == match *result {
            Ok(_) => 0,
            Err(e) => e@.exit_code(),
        },
        r == 0 <==> result is Ok,
{
    match result {
        Ok(_) => 0,
        Err(e) => e.exit_code(),
    }
}

/// How the `i`-th failure is shown.
pub open spec fn failure_line(f: FailedView, i: int) -> Seq<char> {
    "  "@ + dec(i + 1) + ". ["@ + (if f.is_dir {
        "目录"@
    } else {
        "文件"@
    }) + "] "@ + f.path.display() + ": "@ + f.error
}

/// How many failures are shown.
pub open spec fn shown(n: int) -> int {
    if n < 10 {
        n
    } else {
        10
    }
}

/// How failures are shown: the first ten, and how many more there are.
pub open spec fn failure_lines(fs: Seq<FailedView>) -> Seq<Seq<char>> {
    let n = shown(fs.len() as int);
    if fs.len() == 0 {
        Seq::empty()
    } else {
        let head = seq!["\n前 "@ + dec(n) + " 项失败:"@] + Seq::new(
            n as nat,
            |i: int| failure_line(fs[i], i),
        );
        if fs.len() > n {
            head.push("  ... 另有 "@ + dec(fs.len() - n) + " 项失败"@)
        } else {
            head
        }
    }
}

/// How an error is shown, with what to do about it.
pub open spec fn error_lines(e: ErrorView) -> Seq<Seq<char>> {
    let head = seq!["cshl: "@ + e.message()];
    match e {
        ErrorView::Aborted { failures, .. } => head + seq![
            "\n源目录未被改动，修复下列问题后可直接重试。"@,
        ] + failure_lines(failures),
        ErrorView::PartialFailure { failures, .. } => head + seq![
            "\n⚠️  数据已经全部就位于目标位置，但源目录没有清理干净。\n请手动检查残留，然后删除它。`cshl list` 可查看本次迁移的记录。"@,
        ] + failure_lines(failures),
        ErrorView::Incomplete { .. } => head + seq![
            "\n⚠️  数据已经全部就位于目标位置，但最后的收尾没有完成。\n请手动检查，`cshl list` 可查看本次迁移的记录。"@,
        ],
        ErrorView::Unsafe { can_force, .. } => head + seq![
            if can_force {
                "\n确认无误可加 --force 越过检查。"@
            } else {
                "\n这条限制无法越过 —— 加 --force 也不行。"@
            },
        ],
        _ => head,
    }
}

fn print_failures(lines: &mut Vec<String>, failures: &Vec<FailedItem>)
    ensures
        lines_view(final(lines)@) == lines_view(old(lines)@) + failure_lines(
            failed_views(failures@),
        ),
{
    let ghost start = lines_view(lines@);
    let ghost fs = failed_views(failures@);
    if failures.len() == 0 {
        assert(start + Seq::<Seq<char>>::empty() =~= start);
        return;
    }
    let n: usize = if failures.len() < 10 {
        failures.len()
    } else {
        10
    };
    let mut line = cat("\n前 ", show_size(n).as_str());
    line.append(" 项失败:");
    push_line(lines, line);
    let ghost one = seq!["\n前 "@ + dec(n as int) + " 项失败:"@];
    let mut i: usize = 0;
    assert(lines_view(lines@) =~= start + one + Seq::new(0, |i: int| failure_line(fs[i], i)));
    while i < n
        invariant
            0 <= i <= n <= failures.len(),
            n <= 10,
            fs == failed_views(failures@),
            lines_view(lines@) == start + one + Seq::new(i as nat, |i: int| failure_line(fs[i], i)),
        decreases n - i,
    {
        let f = &failures[i];
        let mut line = cat("  ", show_size(i + 1).as_str());
        line.append(". [");
        line.append(
            if f.is_dir {
                "目录"
            } else {
                "文件"
            },
        );
        line.append("] ");
        line.append(f.path.display().as_str());
        line.append(": ");
        line.append(f.error.as_str());
        push_line(lines, line);
        i = i + 1;
        assert(lines_view(lines@) =~= start + one + Seq::new(
            i as nat,
            |i: int| failure_line(fs[i], i),
        ));
    }
    if failures.len() > n {
        let mut line = cat("  ... 另有 ", show_size(failures.len() - n).as_str());
        line.append(" 项失败");
        push_line(lines, line);
    }
    assert(lines_view(lines@) =~= start + failure_lines(fs));
}

/// How an error is shown, with what to do about it.
pub fn render_error(e: &Error) -> (r: Vec<String>)
    ensures
        lines_view(r@) == error_lines(e@),
{
    let mut lines: Vec<String> = Vec::new();
    push_line(&mut lines, cat("cshl: ", e.to_string().as_str()));
    let ghost head = seq!["cshl: "@ + e@.message()];
    assert(lines_view(lines@) =~= head);
    match e {
        Error::Aborted { failures, .. } => {
            push_line(&mut lines, "\n源目录未被改动，修复下列问题后可直接重试。".to_owned());
            assert(lines_view(lines@) =~= head + seq![
                "\n源目录未被改动，修复下列问题后可直接重试。"@,
            ]);
            print_failures(&mut lines, failures);
        },
        Error::PartialFailure { failures, .. } => {
            push_line(
                &mut lines,
                "\n⚠️  数据已经全部就位于目标位置，但源目录没有清理干净。\n请手动检查残留，然后删除它。`cshl list` 可查看本次迁移的记录。".to_owned(),
            );
            assert(lines_view(lines@) =~= head + seq![
                "\n⚠️  数据已经全部就位于目标位置，但源目录没有清理干净。\n请手动检查残留，然后删除它。`cshl list` 可查看本次迁移的记录。"@,
            ]);
            print_failures(&mut lines, failures);
        },
        Error::Incomplete { .. } => {
            push_line(
                &mut lines,
                "\n⚠️  数据已经全部就位于目标位置，但最后的收尾没有完成。\n请手动检查，`cshl list` 可查看本次迁移的记录。".to_owned(),
            );
            assert(lines_view(lines@) =~= error_lines(e@));
        },
        Error::Unsafe { can_force, .. } => {
            if *can_force {
                push_line(&mut lines, "\n确认无误可加 --force 越过检查。".to_owned());
            } else {
                push_line(&mut lines, "\n这条限制无法越过 —— 加 --force 也不行。".to_owned());
            }
            assert(lines_view(lines@) =~= error_lines(e@));
        },
        _ => {},
    }
    lines
}

/// An error is shown first. What there is to do about it follows: where it can be forced,
/// that it can, and else that it cannot; and where the data is at its new place, or the
/// source is as it was, that. Failures are listed behind that.
pub proof fn law_error_is_shown(e: ErrorView)
    ensures
        error_lines(e).len() > 0,
        error_lines(e)[0] == "cshl: "@ + e.message(),
        e matches ErrorView::Unsafe { can_force, .. } ==> error_lines(e).len() == 2 && error_lines(
            e,
        )[1] == if can_force {
            "\n确认无误可加 --force 越过检查。"@
        } else {
            "\n这条限制无法越过 —— 加 --force 也不行。"@
        },
        e matches ErrorView::Aborted { failures, .. } ==> error_lines(e).skip(2) == failure_lines(
            failures,
        ) && error_lines(e)[1] == "\n源目录未被改动，修复下列问题后可直接重试。"@,
        e matches ErrorView::PartialFailure { failures, .. } ==> error_lines(e).skip(2)
            == failure_lines(failures),
        e is Incomplete ==> error_lines(e).len() == 2,
        e is Io || e is InvalidPath || e is InsufficientSpace || e is Ledger ==> error_lines(
            e,
        ).len() == 1,
{
    match e {
        ErrorView::Aborted { failures, .. } => {
            assert(error_lines(e).skip(2) =~= failure_lines(failures));
        },
        ErrorView::PartialFailure { failures, .. } => {
            assert(error_lines(e).skip(2) =~= failure_lines(failures));
        },
        _ => {},
    }
}

/// Of failures the first ten are shown, each in its turn with its number, what it is, where
/// it is and why it failed; the rest are counted. Where there are none, nothing is shown.
pub proof fn law_failures_are_shown(fs: Seq<FailedView>, i: int)
    requires
        0 <= i < fs.len(),
        i < 10,
    ensures
        ({
            let lines = failure_lines(fs);
            let line = lines[i + 1];
            let f = fs[i];
            let n: int = if fs.len() < 10 {
                fs.len() as int
            } else {
                10
            };
            &&& lines.len() == if fs.len() > 10 {
                12
            } else {
                fs.len() + 1
            }
            &&& holds(lines[0], dec(n))
            &&& fs.len() > 10 ==> holds(lines[11], dec(fs.len() - 10))
            &&& holds(line, f.path.display())
            &&& holds(line, f.error)
            &&& holds(line, dec(i + 1))
            &&& f.is_dir ==> holds(line, "目录"@)
            &&& !f.is_dir ==> holds(line, "文件"@)
        }),
        failure_lines(Seq::empty()) == Seq::<Seq<char>>::empty(),
{
    let lines = failure_lines(fs);
    let f = fs[i];
    let line = lines[i + 1];
    let kind = if f.is_dir {
        "目录"@
    } else {
        "文件"@
    };
    assert(line == failure_line(f, i));
    let a = "  "@.len() + dec(i + 1).len() + ". ["@.len();
    let b = a + kind.len() + "] "@.len();
    lemma_holds_at(line, dec(i + 1), "  "@.len() as int);
    lemma_holds_at(line, kind, a as int);
    lemma_holds_at(line, f.path.display(), b as int);
    lemma_holds_at(line, f.error, line.len() - f.error.len());
    lemma_holds_at(lines[0], dec(shown(fs.len() as int)), "\n前 "@.len() as int);
    if fs.len() > 10 {
        lemma_holds_at(lines[11], dec(fs.len() - 10), "  ... 另有 "@.len() as int);
    }
}

} // verus!
