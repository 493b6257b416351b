//! What is shown of a move: before it, in its course, and when it is done.
//!
//! Each text is one line to print. How long something took is handed in as text.

use vstd::prelude::*;

use crate::error::human;
use crate::error::human_bytes;
use crate::error::Error;
use crate::error::ErrorView;
use crate::job::Job;
use crate::job::JobView;
use crate::migrate::Threads;
use crate::path::PathBuf;
use crate::path::PathView;
use crate::plan::are_groups;
use crate::plan::hardlink_groups;
use crate::plan::index_views;
use crate::plan::path_views;
use crate::plan::sum_sizes;
use crate::plan::FileView;
use crate::plan::Plan;
use crate::plan::PlanView;
use crate::platform::LinkKind;
use crate::share::count_shared;
use crate::share::flat;
use crate::share::saved;
use crate::text::cat;
use crate::text::dec;
use crate::text::holds;
use crate::text::lemma_holds_at;
use crate::text::lines_view;
use crate::text::push_line;
use crate::text::show_size;
use crate::transfer::Outcome;

verus! {

/// What a preview says of the two places.
pub open spec fn places(job: JobView) -> Seq<Seq<char>> {
    let head = seq!["预演模式 —— 不会做任何改动\n"@, "  源:   "@ + job.real_source.display()];
    let link = match job.source_was_link {
        Some(kind) => seq![
            "        （"@ + job.source.display() + " 是一个 "@ + kind.name()
                + "，将穿透到上面这个真实目录）"@,
        ],
        None => Seq::empty(),
    };
    head + link + seq!["  目标: "@ + job.target.display()]
}

/// What a preview says of the directories that have to be made.
pub open spec fn parents_note(parents: Result<Seq<PathView>, ErrorView>) -> Seq<Seq<char>> {
    match parents {
        Ok(dirs) => if dirs.len() > 0 {
            seq![
                "        （父目录不存在，将自动创建 "@ + dec(dirs.len() as int)
                    + " 层，最深一层是 "@ + dirs.last().display() + "）"@,
            ]
        } else {
            Seq::empty()
        },
        Err(e) => seq!["        ⚠️  "@ + e.message() + "，实际执行会被拒绝"@],
    }
}

/// What a preview says of the volumes, and how the work would be shared.
pub open spec fn volume_note(same: Option<bool>, threads: Threads) -> Seq<Seq<char>> {
    match same {
        Some(true) => seq![
            "\n  判定: 同卷 —— 一次原子 rename 即可完成"@,
            "  预计: 微秒级，与目录大小无关，无需复制任何数据"@,
            "\n  （实际执行时仍会先尝试 rename，以返回值为准）"@,
        ],
        Some(false) => seq![
            "\n  判定: 跨卷 —— 需要复制数据后删除源目录"@,
            "  线程: "@ + threads.shown(),
        ],
        None => seq![
            "\n  判定: 无法预先探测卷，执行时以 rename 的返回值为准"@,
            "  线程: "@ + threads.shown(),
        ],
    }
}

/// The contents of what was found out about the directories to make.
pub open spec fn parents_view(p: Result<Vec<PathBuf>, Error>) -> Result<Seq<PathView>, ErrorView> {
    match p {
        Ok(v) => Ok(path_views(v@)),
        Err(e) => Err(e@),
    }
}

fn say_places(lines: &mut Vec<String>, job: &Job)
    ensures
        lines_view(final(lines)@) == lines_view(old(lines)@) + places(job@),
{
    let ghost start = lines_view(lines@);
    push_line(lines, "预演模式 —— 不会做任何改动\n".to_owned());
    push_line(lines, cat("  源:   ", job.real_source.display().as_str()));
    if let Some(kind) = &job.source_was_link {
        let mut line = cat("        （", job.source.display().as_str());
        line.append(" 是一个 ");
        line.append(kind.to_string().as_str());
        line.append("，将穿透到上面这个真实目录）");
        push_line(lines, line);
    }
    push_line(lines, cat("  目标: ", job.target.display().as_str()));
    assert(lines_view(lines@) =~= start + places(job@));
}

fn say_parents(lines: &mut Vec<String>, parents: &Result<Vec<PathBuf>, Error>)
    ensures
        lines_view(final(lines)@) == lines_view(old(lines)@) + parents_note(
            parents_view(*parents),
        ),
{
    let ghost start = lines_view(lines@);
    match parents {
        Ok(dirs) => {
            if dirs.len() > 0 {
                let mut line = cat(
                    "        （父目录不存在，将自动创建 ",
                    show_size(dirs.len()).as_str(),
                );
                line.append(" 层，最深一层是 ");
                line.append(dirs[dirs.len() - 1].display().as_str());
                line.append("）");
                push_line(lines, line);
            }
        },
        Err(e) => {
            let mut line = cat("        ⚠️  ", e.to_string().as_str());
            line.append("，实际执行会被拒绝");
            push_line(lines, line);
        },
    }
    assert(lines_view(lines@) =~= start + parents_note(parents_view(*parents)));
}

/// What a preview says first, and whether it has to scan to say more. `same` says
/// whether the two places are on one volume, where that is known.
pub fn dry_run(
    job: &Job,
    parents: &Result<Vec<PathBuf>, Error>,
    same: Option<bool>,
    threads: &Threads,
) -> (r: (Vec<String>, bool))
    ensures
        lines_view(r.0@) == places(job@) + parents_note(parents_view(*parents)) + volume_note(
            same,
            *threads,
        ),
        r.1 == (same != Some(true)),
{
    let mut lines: Vec<String> = Vec::new();
    say_places(&mut lines, job);
    say_parents(&mut lines, parents);
    let ghost start = lines_view(lines@);
    let more = match same {
        Some(true) => {
            push_line(
                &mut lines,
                "\n  判定: 同卷 —— 一次原子 rename 即可完成".to_owned(),
            );
            push_line(
                &mut lines,
                "  预计: 微秒级，与目录大小无关，无需复制任何数据".to_owned(),
            );
            push_line(
                &mut lines,
                "\n  （实际执行时仍会先尝试 rename，以返回值为准）".to_owned(),
            );
            false
        },
        Some(false) => {
            push_line(
                &mut lines,
                "\n  判定: 跨卷 —— 需要复制数据后删除源目录".to_owned(),
            );
            true
        },
        None => {
            push_line(
                &mut lines,
                "\n  判定: 无法预先探测卷，执行时以 rename 的返回值为准".to_owned(),
            );
            true
        },
    };
    if more {
        push_line(&mut lines, cat("  线程: ", threads.describe().as_str()));
    }
    assert(lines_view(lines@) =~= start + volume_note(same, *threads));
    (lines, more)
}

/// What a preview says of files that are one and the same.
pub open spec fn groups_note(files: Seq<FileView>, gs: Seq<Seq<int>>) -> Seq<Seq<char>> {
    if gs.len() == 0 {
        Seq::empty()
    } else {
        seq![
            "    检测到 "@ + dec(gs.len() as int) + " 组硬链接（"@ + dec(flat(gs).len() as int)
                + " 个文件），去重可省下 "@ + human(saved(files, gs) as int),
        ]
    }
}

/// What a preview says of the room at the target.
pub open spec fn space_note(total: u64, available: Option<u64>) -> Seq<Seq<char>> {
    match available {
        None => Seq::empty(),
        Some(free) => {
            let head = seq!["\n  目标卷可用空间: "@ + human(free as int)];
            if total > free {
                head + seq!["    ⚠️  空间不足！实际执行会被拒绝。"@]
            } else {
                head
            }
        },
    }
}

/// What a preview says of all there is to move.
pub open spec fn amounts(plan: PlanView) -> Seq<Seq<char>> {
    seq![
        "\n  将要搬运:"@,
        "    "@ + dec(plan.dirs.len() as int) + " 个目录"@,
        "    "@ + dec(plan.files.len() as int) + " 个文件"@,
        "    "@ + dec(plan.symlinks.len() as int) + " 个符号链接（原样重建，不跟随）"@,
        "    共 "@ + human(plan.total_bytes as int),
    ]
}

/// Whether `lines` are what a preview says of a plan.
pub open spec fn tells_plan(lines: Seq<Seq<char>>, plan: PlanView, available: Option<u64>) -> bool {
    exists|gs: Seq<Seq<int>>| #[trigger]
        are_groups(plan.files, gs) && lines == amounts(plan) + groups_note(plan.files, gs)
            + space_note(plan.total_bytes, available)
}

/// What a preview says of a plan.
pub fn describe_plan(plan: &Plan, available: Option<u64>) -> (r: Vec<String>)
    requires
        sum_sizes(plan@.files) <= u64::MAX,
    ensures
        tells_plan(lines_view(r@), plan@, available),
{
    let mut lines: Vec<String> = Vec::new();
    push_line(&mut lines, "\n  将要搬运:".to_owned());
    let mut line = cat("    ", show_size(plan.dirs.len()).as_str());
    line.append(" 个目录");
    push_line(&mut lines, line);
    let mut line = cat("    ", show_size(plan.files.len()).as_str());
    line.append(" 个文件");
    push_line(&mut lines, line);
    let mut line = cat("    ", show_size(plan.symlinks.len()).as_str());
    line.append(" 个符号链接（原样重建，不跟随）");
    push_line(&mut lines, line);
    push_line(&mut lines, cat("    共 ", human_bytes(plan.total_bytes).as_str()));
    assert(lines_view(lines@) =~= amounts(plan@));
    let groups = hardlink_groups(&plan.files);
    let ghost gs = index_views(groups@);
    if groups.len() > 0 {
        let (linked, spared) = count_shared(&plan.files, &groups);
        let mut line = cat("    检测到 ", show_size(groups.len()).as_str());
        line.append(" 组硬链接（");
        line.append(show_size(linked).as_str());
        line.append(" 个文件），去重可省下 ");
        line.append(human_bytes(spared).as_str());
        push_line(&mut lines, line);
    }
    assert(lines_view(lines@) =~= amounts(plan@) + groups_note(plan@.files, gs));
    let ghost start = lines_view(lines@);
    if let Some(free) = available {
        push_line(&mut lines, cat("\n  目标卷可用空间: ", human_bytes(free).as_str()));
        if plan.total_bytes > free {
            push_line(&mut lines, "    ⚠️  空间不足！实际执行会被拒绝。".to_owned());
        }
    }
    assert(lines_view(lines@) =~= start + space_note(plan@.total_bytes, available));
    lines
}

/// What a preview ends with.
pub fn close_preview(job: &Job, elapsed: &str) -> (r: Vec<String>)
    ensures
        lines_view(r@) == seq![
            "\n  扫描耗时 "@ + elapsed@,
            "\n  执行迁移: cshl "@ + job@.source.display() + " "@ + job@.target.display(),
        ],
{
    let mut lines: Vec<String> = Vec::new();
    push_line(&mut lines, cat("\n  扫描耗时 ", elapsed));
    let mut line = cat("\n  执行迁移: cshl ", job.source.display().as_str());
    line.append(" ");
    line.append(job.target.display().as_str());
    push_line(&mut lines, line);
    lines
}

/// How the first `n` unreadable paths are shown.
pub open spec fn unread(items: Seq<(PathView, Seq<char>)>, n: int) -> Seq<Seq<char>> {
    Seq::new(n as nat, |i: int| "    "@ + items[i].0.display() + ": "@ + items[i].1)
}

/// What is said of paths that could not be read. No more than ten are named.
pub open spec fn unreadable_note(items: Seq<(PathView, Seq<char>)>) -> Seq<Seq<char>> {
    if items.len() == 0 {
        Seq::empty()
    } else {
        let head = seq![
            "\n⚠️  有 "@ + dec(items.len() as int)
                + " 项无法读取（权限不足等），它们不会被迁移:"@,
        ];
        if items.len() > 10 {
            head + unread(items, 10) + seq!["    ... 另有 "@ + dec(items.len() - 10) + " 项"@]
        } else {
            head + unread(items, items.len() as int)
        }
    }
}

/// What is said of paths that could not be read.
pub fn report_unreadable(plan: &Plan) -> (r: Vec<String>)
    ensures
        lines_view(r@) == unreadable_note(plan@.unreadable),
{
    let ghost items = plan@.unreadable;
    let all = &plan.unreadable;
    let mut lines: Vec<String> = Vec::new();
    if all.len() == 0 {
        assert(lines_view(lines@) =~= Seq::empty());
        return lines;
    }
    let mut line = cat("\n⚠️  有 ", show_size(all.len()).as_str());
    line.append(" 项无法读取（权限不足等），它们不会被迁移:");
    push_line(&mut lines, line);
    let ghost head = lines_view(lines@);
    assert(head =~= seq![
        "\n⚠️  有 "@ + dec(items.len() as int) + " 项无法读取（权限不足等），它们不会被迁移:"@,
    ]);
    let mut i: usize = 0;
    assert(head + unread(items, 0) =~= head);
    while i < all.len() && i < 10
        invariant
            0 <= i <= all.len(),
            i <= 10,
            items == crate::plan::unreadable_views(all@),
            lines_view(lines@) == head + unread(items, i as int),
        decreases all.len() - i,
    {
        let ghost before = lines_view(lines@);
        let mut line = cat("    ", all[i].0.display().as_str());
        line.append(": ");
        line.append(all[i].1.as_str());
        push_line(&mut lines, line);
        assert(unread(items, i + 1) =~= unread(items, i as int).push(
            "    "@ + items[i as int].0.display() + ": "@ + items[i as int].1,
        ));
        assert(lines_view(lines@) =~= head + unread(items, i + 1));
        i = i + 1;
    }
    let ghost before = lines_view(lines@);
    if all.len() > 10 {
        let mut line = cat("    ... 另有 ", show_size(all.len() - 10).as_str());
        line.append(" 项");
        push_line(&mut lines, line);
        assert(lines_view(lines@) =~= unreadable_note(items));
    } else {
        assert(lines_view(lines@) =~= unreadable_note(items));
    }
    lines
}

/// What is said of a move that went well.
pub open spec fn success_note(
    job: JobView,
    o: Outcome,
    kind: Option<LinkKind>,
    elapsed: Seq<char>,
) -> Seq<Seq<char>> {
    let head = if o.same_volume {
        "✓ 已迁移到 "@ + job.target.display() + "（同卷 rename，耗时 "@ + elapsed + "）"@
    } else {
        "✓ 已迁移到 "@ + job.target.display() + "（"@ + human(o.bytes as int) + " · "@ + dec(
            o.files as int,
        ) + " 文件 · "@ + dec(o.dirs as int) + " 目录，耗时 "@ + elapsed + "）"@
    };
    let link = match kind {
        None => seq!["  未创建链接（--no-link）"@],
        Some(k) => {
            let line = "  "@ + job.source.display() + " → "@ + job.target.display() + " （"@
                + k.name() + "）"@;
            if job.source_was_link is Some {
                seq![line, "  （原链接已改指到新位置）"@]
            } else {
                seq![line]
            }
        },
    };
    seq![head] + link
}

/// What is said of a move that went well, unless nothing is to be said.
pub fn report_success(
    job: &Job,
    o: &Outcome,
    kind: Option<LinkKind>,
    elapsed: &str,
    quiet: bool,
) -> (r: Vec<String>)
    ensures
        lines_view(r@) == if quiet {
            Seq::empty()
        } else {
            success_note(job@, *o, kind, elapsed@)
        },
{
    let mut lines: Vec<String> = Vec::new();
    if quiet {
        assert(lines_view(lines@) =~= Seq::empty());
        return lines;
    }
    let mut line = cat("✓ 已迁移到 ", job.target.display().as_str());
    if o.same_volume {
        line.append("（同卷 rename，耗时 ");
    } else {
        line.append("（");
        line.append(human_bytes(o.bytes).as_str());
        line.append(" · ");
        line.append(show_size(o.files).as_str());
        line.append(" 文件 · ");
        line.append(show_size(o.dirs).as_str());
        line.append(" 目录，耗时 ");
    }
    line.append(elapsed);
    line.append("）");
    push_line(&mut lines, line);
    match kind {
        Some(k) => {
            let mut line = cat("  ", job.source.display().as_str());
            line.append(" → ");
            line.append(job.target.display().as_str());
            line.append(" （");
            line.append(k.to_string().as_str());
            line.append("）");
            push_line(&mut lines, line);
            if job.source_was_link.is_some() {
                push_line(&mut lines, "  （原链接已改指到新位置）".to_owned());
            }
        },
        None => {
            push_line(&mut lines, "  未创建链接（--no-link）".to_owned());
        },
    }
    assert(lines_view(lines@) =~= success_note(job@, *o, kind, elapsed@));
    lines
}

/// What is said of directories that were made for the target.
pub fn report_parents(made: &Vec<PathBuf>) -> (r: Vec<String>)
    ensures
        lines_view(r@) == Seq::new(
            made.len() as nat,
            |i: int| "已创建目标父目录："@ + made@[i]@.display(),
        ),
{
    let mut lines: Vec<String> = Vec::new();
    let mut i: usize = 0;
    let ghost all = Seq::new(
        made.len() as nat,
        |i: int| "已创建目标父目录："@ + made@[i]@.display(),
    );
    assert(lines_view(lines@) =~= all.take(0));
    while i < made.len()
        invariant
            0 <= i <= made.len(),
            all == Seq::new(
                made.len() as nat,
                |i: int| "已创建目标父目录："@ + made@[i]@.display(),
            ),
            lines_view(lines@) == all.take(i as int),
        decreases made.len() - i,
    {
        push_line(&mut lines, cat("已创建目标父目录：", made[i].display().as_str()));
        assert(all.take(i + 1) =~= all.take(i as int).push(all[i as int]));
        i = i + 1;
    }
    assert(all.take(i as int) =~= all);
    lines
}

/// What is said of a scan.
pub fn report_scan(plan: &Plan, elapsed: &str) -> (r: String)
    ensures
        r@ == "扫描完成："@ + dec(plan@.dirs.len() as int) + " 目录 · "@ + dec(
            plan@.files.len() as int,
        ) + " 文件 · "@ + dec(plan@.symlinks.len() as int) + " 链接 · "@ + human(
            plan@.total_bytes as int,
        ) + " · 耗时 "@ + elapsed@,
{
    let mut line = cat("扫描完成：", show_size(plan.dirs.len()).as_str());
    line.append(" 目录 · ");
    line.append(show_size(plan.files.len()).as_str());
    line.append(" 文件 · ");
    line.append(show_size(plan.symlinks.len()).as_str());
    line.append(" 链接 · ");
    line.append(human_bytes(plan.total_bytes).as_str());
    line.append(" · 耗时 ");
    line.append(elapsed);
    line
}

/// What is said of copying. `rate` is how many bytes went by in a second.
pub fn report_copy(bytes: u64, elapsed: &str, rate: u64) -> (r: String)
    ensures
        r@ == "复制完成："@ + human(bytes as int) + " · 耗时 "@ + elapsed@ + " · "@ + human(
            rate as int,
        ) + "/s"@,
{
    let mut line = cat("复制完成：", human_bytes(bytes).as_str());
    line.append(" · 耗时 ");
    line.append(elapsed);
    line.append(" · ");
    line.append(human_bytes(rate).as_str());
    line.append("/s");
    line
}

/// What is said of a move back that went well.
pub fn report_restore(restore_to: &PathBuf, o: &Outcome, elapsed: &str) -> (r: String)
    ensures
        r@ == "✓ 已还原到 "@ + restore_to@.display() + "（耗时 "@ + elapsed@ + (
        if o.same_volume {
            "，同卷 rename"@
        } else {
            ""@
        }) + "）"@,
{
    let mut line = cat("✓ 已还原到 ", restore_to.display().as_str());
    line.append("（耗时 ");
    line.append(elapsed);
    line.append(
        if o.same_volume {
            "，同卷 rename"
        } else {
            ""
        },
    );
    line.append("）");
    line
}

/// A preview names what would be moved and where to, and says so where what the user named
/// is a link, of which kind.
pub proof fn law_preview_names_the_places(job: JobView)
    ensures
        ({
            let lines = places(job);
            &&& holds(lines[1], job.real_source.display())
            &&& holds(lines.last(), job.target.display())
            &&& lines.len() == if job.source_was_link is Some {
                4nat
            } else {
                3nat
            }
            &&& job.source_was_link matches Some(kind) ==> holds(lines[2], job.source.display())
                && holds(lines[2], kind.name())
        }),
{
    let lines = places(job);
    lemma_holds_at(lines[1], job.real_source.display(), "  源:   "@.len() as int);
    lemma_holds_at(lines.last(), job.target.display(), "  目标: "@.len() as int);
    if let Some(kind) = job.source_was_link {
        let a = "        （"@;
        lemma_holds_at(lines[2], job.source.display(), a.len() as int);
        lemma_holds_at(
            lines[2],
            kind.name(),
            (a.len() + job.source.display().len() + " 是一个 "@.len()) as int,
        );
    }
}

/// A preview says how many directories would be made, and the deepest; nothing where none
/// would; and why the move would be refused where they could not.
pub proof fn law_preview_tells_the_parents(parents: Result<Seq<PathView>, ErrorView>)
    ensures
        match parents {
            Ok(dirs) => if dirs.len() == 0 {
                parents_note(parents).len() == 0
            } else {
                parents_note(parents).len() == 1 && holds(
                    parents_note(parents)[0],
                    dec(dirs.len() as int),
                ) && holds(parents_note(parents)[0], dirs.last().display())
            },
            Err(e) => parents_note(parents).len() == 1 && holds(
                parents_note(parents)[0],
                e.message(),
            ),
        },
{
    match parents {
        Ok(dirs) => {
            if dirs.len() > 0 {
                let line = parents_note(parents)[0];
                let a = "        （父目录不存在，将自动创建 "@;
                let b = " 层，最深一层是 "@;
                lemma_holds_at(line, dec(dirs.len() as int), a.len() as int);
                lemma_holds_at(
                    line,
                    dirs.last().display(),
                    (a.len() + dec(dirs.len() as int).len() + b.len()) as int,
                );
            }
        },
        Err(e) => {
            lemma_holds_at(parents_note(parents)[0], e.message(), "        ⚠️  "@.len() as int);
        },
    }
}

/// A preview says what is known of the volumes, each case by words of its own, and how many
/// threads would work just where data may have to be copied.
pub proof fn law_preview_tells_the_volumes(same: Option<bool>, threads: Threads)
    ensures
        ({
            let lines = volume_note(same, threads);
            &&& same == Some(true) ==> lines.len() == 3 && lines[0]
                == "\n  判定: 同卷 —— 一次原子 rename 即可完成"@
            &&& same != Some(true) ==> lines.len() == 2 && holds(lines[1], threads.shown())
            &&& same == Some(false) ==> lines[0]
                == "\n  判定: 跨卷 —— 需要复制数据后删除源目录"@
            &&& same is None ==> lines[0]
                == "\n  判定: 无法预先探测卷，执行时以 rename 的返回值为准"@
        }),
{
    if same != Some(true) {
        let lines = volume_note(same, threads);
        lemma_holds_at(lines[1], threads.shown(), "  线程: "@.len() as int);
    }
}

/// A preview says how much room there is, where that is known, and warns just where it is
/// not enough.
pub proof fn law_preview_tells_the_room(total: u64, available: Option<u64>)
    ensures
        ({
            let lines = space_note(total, available);
            &&& available is None <==> lines.len() == 0
            &&& available matches Some(free) ==> holds(lines[0], human(free as int)) && (total > free
                <==> lines.len() == 2) && lines.len() <= 2
        }),
{
    if let Some(free) = available {
        let lines = space_note(total, available);
        lemma_holds_at(lines[0], human(free as int), "\n  目标卷可用空间: "@.len() as int);
    }
}

/// A preview counts what would be moved, and says how much it is.
pub proof fn law_preview_counts(plan: PlanView)
    ensures
        amounts(plan).len() == 5,
        holds(amounts(plan)[1], dec(plan.dirs.len() as int)),
        holds(amounts(plan)[2], dec(plan.files.len() as int)),
        holds(amounts(plan)[3], dec(plan.symlinks.len() as int)),
        holds(amounts(plan)[4], human(plan.total_bytes as int)),
        holds(amounts(plan)[1], "目录"@),
        holds(amounts(plan)[2], "文件"@),
        holds(amounts(plan)[3], "链接"@),
{
    let a = amounts(plan);
    let k = "    "@.len() as int;
    lemma_holds_at(a[1], dec(plan.dirs.len() as int), k);
    lemma_holds_at(a[2], dec(plan.files.len() as int), k);
    lemma_holds_at(a[3], dec(plan.symlinks.len() as int), k);
    lemma_holds_at(a[4], human(plan.total_bytes as int), "    共 "@.len() as int);
    reveal_strlit("目录");
    reveal_strlit(" 个目录");
    reveal_strlit("文件");
    reveal_strlit(" 个文件");
    reveal_strlit("链接");
    reveal_strlit(" 个符号链接（原样重建，不跟随）");
    lemma_holds_at(a[1], "目录"@, k + dec(plan.dirs.len() as int).len() + 2);
    lemma_holds_at(a[2], "文件"@, k + dec(plan.files.len() as int).len() + 2);
    lemma_holds_at(a[3], "链接"@, k + dec(plan.symlinks.len() as int).len() + 4);
}

/// A preview tells of names of one file just where there are any, how many files have
/// several, how many names these have, and what that saves.
pub proof fn law_preview_tells_the_groups(files: Seq<FileView>, gs: Seq<Seq<int>>)
    ensures
        groups_note(files, gs).len() == if gs.len() == 0 {
            0nat
        } else {
            1
        },
        gs.len() > 0 ==> holds(groups_note(files, gs)[0], dec(gs.len() as int)) && holds(
            groups_note(files, gs)[0],
            dec(flat(gs).len() as int),
        ) && holds(groups_note(files, gs)[0], human(saved(files, gs) as int)),
{
    if gs.len() > 0 {
        let line = groups_note(files, gs)[0];
        let a = "    检测到 "@;
        let b = " 组硬链接（"@;
        let x = dec(gs.len() as int);
        let z = human(saved(files, gs) as int);
        lemma_holds_at(line, x, a.len() as int);
        lemma_holds_at(line, dec(flat(gs).len() as int), (a.len() + x.len() + b.len()) as int);
        lemma_holds_at(line, z, line.len() - z.len());
    }
}

/// What could not be read is counted, and the first ten are named, each with why; of the
/// rest it is said how many there are. Where all could be read, nothing is said.
pub proof fn law_unreadable_is_told(items: Seq<(PathView, Seq<char>)>, i: int)
    requires
        0 <= i < items.len(),
        i < 10,
    ensures
        ({
            let lines = unreadable_note(items);
            &&& lines.len() == if items.len() > 10 {
                12
            } else {
                items.len() + 1
            }
            &&& holds(lines[0], dec(items.len() as int))
            &&& holds(lines[i + 1], items[i].0.display())
            &&& holds(lines[i + 1], items[i].1)
            &&& items.len() > 10 ==> holds(lines[11], dec(items.len() - 10))
        }),
        unreadable_note(Seq::empty()) == Seq::<Seq<char>>::empty(),
{
    let lines = unreadable_note(items);
    let line = "    "@ + items[i].0.display() + ": "@ + items[i].1;
    assert(lines[i + 1] == line);
    lemma_holds_at(lines[0], dec(items.len() as int), "\n⚠️  有 "@.len() as int);
    lemma_holds_at(line, items[i].0.display(), "    "@.len() as int);
    lemma_holds_at(line, items[i].1, line.len() - items[i].1.len());
    if items.len() > 10 {
        lemma_holds_at(lines[11], dec(items.len() - 10), "    ... 另有 "@.len() as int);
    }
}

/// What is said of a move that went well: where the data is; how much it was just where it
/// was copied; and that the source leads there by a link of the kind that was made, whether
/// one was there before, or that there is none.
#[verifier::spinoff_prover]
#[verifier::rlimit(40)]
pub proof fn law_success_is_told(
    job: JobView,
    o: Outcome,
    kind: Option<LinkKind>,
    elapsed: Seq<char>,
)
    ensures
        ({
            let lines = success_note(job, o, kind, elapsed);
            &&& holds(lines[0], job.target.display())
            &&& holds(lines[0], elapsed)
            &&& !o.same_volume ==> holds(lines[0], human(o.bytes as int)) && holds(
                lines[0],
                dec(o.files as int),
            ) && holds(lines[0], dec(o.dirs as int))
            &&& o.same_volume ==> holds(lines[0], "同卷 rename"@)
            &&& kind is None ==> lines.len() == 2 && lines[1] == "  未创建链接（--no-link）"@
            &&& kind matches Some(k) ==> holds(
                lines[1],
                job.source.display() + " → "@ + job.target.display(),
            ) && holds(lines[1], k.name()) && lines.len() == if job.source_was_link is Some {
                3nat
            } else {
                2nat
            }
        }),
{
    let lines = success_note(job, o, kind, elapsed);
    let l = lines[0];
    let a = "✓ 已迁移到 "@;
    let t = job.target.display();
    lemma_holds_at(l, t, a.len() as int);
    if o.same_volume {
        reveal_strlit("同卷 rename");
        reveal_strlit("（同卷 rename，耗时 ");
        lemma_holds_at(l, "同卷 rename"@, (a.len() + t.len() + 1) as int);
        lemma_holds_at(l, elapsed, (a.len() + t.len() + "（同卷 rename，耗时 "@.len()) as int);
    } else {
        let x = human(o.bytes as int);
        let y = dec(o.files as int);
        let z = dec(o.dirs as int);
        let p = a.len() + t.len() + "（"@.len();
        let q = p + x.len() + " · "@.len();
        let r = q + y.len() + " 文件 · "@.len();
        lemma_holds_at(l, x, p as int);
        lemma_holds_at(l, y, q as int);
        lemma_holds_at(l, z, r as int);
        lemma_holds_at(l, elapsed, (r + z.len() + " 目录，耗时 "@.len()) as int);
    }
    if let Some(k) = kind {
        let m = lines[1];
        let s = job.source.display() + " → "@ + t;
        lemma_holds_at(m, s, "  "@.len() as int);
        lemma_holds_at(m, k.name(), ("  "@.len() + s.len() + " （"@.len()) as int);
    }
}

} // verus!
