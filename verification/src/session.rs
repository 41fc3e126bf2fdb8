//! What a session is asked to do, and how it goes from one open board to
//! another.

use vstd::prelude::*;

use crate::app::{App, AppView};
use crate::text::{decimal, decimal_of, same_str, string_of, to_chars, views};

verus! {

/// What the command line asks for.
#[derive(Debug)]
pub enum Command {
    /// Describe the requests and responses.
    Schema,
    /// Print the board as text.
    Render,
    /// Make the requests in the argument; none where it is missing.
    Api(Option<String>),
    /// Open the boards.
    Edit,
}

/// What the command line asks for, its text as characters.
pub ghost enum CommandView {
    Schema,
    Render,
    Api(Option<Seq<char>>),
    Edit,
}

impl View for Command {
    type V = CommandView;

    open spec fn view(&self) -> CommandView {
        match self {
            Command::Schema => CommandView::Schema,
            Command::Render => CommandView::Render,
            Command::Api(json) => CommandView::Api(crate::text::opt_view(*json)),
            Command::Edit => CommandView::Edit,
        }
    }
}

/// Whether an argument is a flag.
pub open spec fn is_flag(s: Seq<char>) -> bool {
    s.len() >= 2 && s[0] == '-' && s[1] == '-'
}

/// The first index of an argument, the number of arguments where there is
/// none.
pub open spec fn first_arg(args: Seq<Seq<char>>, flag: Seq<char>) -> int
    decreases args.len(),
{
    if args.len() == 0 {
        0
    } else {
        let before = first_arg(args.drop_last(), flag);
        if before < args.len() - 1 || args.last() == flag {
            before
        } else {
            args.len() as int
        }
    }
}

/// What the arguments ask for.
pub open spec fn asked(args: Seq<Seq<char>>) -> CommandView {
    let api = first_arg(args, "--api"@);
    if args.contains("--schema"@) {
        CommandView::Schema
    } else if args.contains("--render"@) {
        CommandView::Render
    } else if args.contains("--api"@) {
        CommandView::Api(
            if api + 1 < args.len() {
                Some(args[api + 1])
            } else {
                None
            },
        )
    } else {
        CommandView::Edit
    }
}

/// The boards among the arguments from `i` on: those that are no flag and
/// not the requests after `--api`.
pub open spec fn boards_from(args: Seq<Seq<char>>, i: int) -> Seq<Seq<char>>
    decreases args.len() + 1 - i,
{
    if i >= args.len() {
        Seq::empty()
    } else if args[i] == "--api"@ {
        boards_from(args, i + 2)
    } else if is_flag(args[i]) {
        boards_from(args, i + 1)
    } else {
        seq![args[i]] + boards_from(args, i + 1)
    }
}

pub(crate) proof fn lemma_first_arg(args: Seq<Seq<char>>, flag: Seq<char>, i: int)
    requires
        0 <= i <= args.len(),
        forall|k: int| 0 <= k < i ==> #[trigger] args[k] != flag,
        i < args.len() ==> args[i] == flag,
    ensures
        first_arg(args, flag) == i,
    decreases args.len(),
{
    if args.len() > 0 {
        let rest = args.drop_last();
        if i < args.len() - 1 {
            lemma_first_arg(rest, flag, i);
        } else {
            lemma_first_arg(rest, flag, rest.len() as int);
        }
    }
}

/// The index of the first argument that is the given one.
fn position(args: &Vec<String>, flag: &str) -> (r: Option<usize>)
    ensures
        match r {
            Some(i) => i < args@.len() && first_arg(views(args@), flag@) == i && views(
                args@,
            ).contains(flag@),
            None => !views(args@).contains(flag@),
        },
{
    let ghost all = views(args@);
    let mut i: usize = 0;
    while i < args.len()
        invariant
            i <= args@.len(),
            all == views(args@),
            forall|k: int| 0 <= k < i ==> #[trigger] all[k] != flag@,
        decreases args@.len() - i,
    {
        if same_str(args[i].as_str(), flag) {
            proof {
                assert(all[i as int] == flag@);
                lemma_first_arg(all, flag@, i as int);
            }
            return Some(i);
        }
        i += 1;
    }
    None
}

/// What the command line asks for.
pub fn command(args: &Vec<String>) -> (r: Command)
    ensures
        r@ == asked(views(args@)),
{
    if position(args, "--schema").is_some() {
        return Command::Schema;
    }
    if position(args, "--render").is_some() {
        return Command::Render;
    }
    match position(args, "--api") {
        Some(i) => if args.len() - i > 1 {
            Command::Api(Some(args[i + 1].clone()))
        } else {
            Command::Api(None)
        },
        None => Command::Edit,
    }
}

fn starts_like_flag(s: &str) -> (r: bool)
    ensures
        r == is_flag(s@),
{
    let v: Vec<char> = to_chars(s);
    v.len() >= 2 && v[0] == '-' && v[1] == '-'
}

/// The boards that the command line names: several at once open as tabs
/// that share one camera.
pub fn board_paths(args: &Vec<String>) -> (r: Vec<String>)
    ensures
        views(r@) == boards_from(views(args@), 0),
{
    let ghost all = views(args@);
    let mut out: Vec<String> = Vec::new();
    let mut i: usize = 0;
    proof {
        assert(views(out@) + boards_from(all, 0) =~= boards_from(all, 0));
    }
    while i < args.len()
        invariant
            i <= args@.len(),
            all == views(args@),
            views(out@) + boards_from(all, i as int) == boards_from(all, 0),
        decreases args@.len() - i,
    {
        let ghost before = views(out@);
        if same_str(args[i].as_str(), "--api") {
            if args.len() - i < 2 {
                proof {
                    assert(boards_from(all, i + 2) =~= Seq::empty());
                    assert(before + Seq::<Seq<char>>::empty() =~= before);
                }
                return out;
            }
            i += 2;
        } else if starts_like_flag(args[i].as_str()) {
            i += 1;
        } else {
            out.push(args[i].clone());
            proof {
                assert(views(out@) =~= before.push(all[i as int]));
                assert(before.push(all[i as int]) + boards_from(all, i + 1) =~= before + (
                seq![all[i as int]] + boards_from(all, i + 1)));
            }
            i += 1;
        }
    }
    proof {
        assert(views(out@) + Seq::<Seq<char>>::empty() =~= views(out@));
    }
    out
}

/// Whether a path names an outline rather than a board: a file with a name
/// before its `.md`.
pub open spec fn names_outline(path: Seq<char>) -> bool {
    let n = path.len();
    n > 3 && path[n - 4] != '/' && path.skip(n - 3) == ".md"@
}

/// Whether a path names an outline rather than a board.
pub fn is_outline(path: &str) -> (r: bool)
    ensures
        r == names_outline(path@),
{
    let v: Vec<char> = to_chars(path);
    let n: usize = v.len();
    proof {
        reveal_strlit(".md");
        if n > 3 {
            let end = path@.skip(n - 3);
            assert(end == ".md"@ <==> end[0] == '.' && end[1] == 'm' && end[2] == 'd') by {
                if end[0] == '.' && end[1] == 'm' && end[2] == 'd' {
                    assert(end =~= ".md"@);
                }
            }
        }
    }
    n > 3 && v[n - 4] != '/' && v[n - 3] == '.' && v[n - 2] == 'm' && v[n - 1] == 'd'
}

/// What the tab bar asks for.
#[derive(Debug, Clone, Copy, PartialEq, Eq, Structural)]
pub enum TabAction {
    Goto(usize),
    Next,
    Prev,
    /// Clone the board into a new tab.
    New,
}

/// What becomes of it.
#[derive(Debug, Clone, Copy, PartialEq, Eq, Structural)]
pub enum TabStep {
    /// Nothing.
    Stay,
    /// Another board comes to the front.
    Show(usize),
    /// There is no other board.
    OnlyOne,
    /// The board has no file to clone.
    NoFile,
    /// The board is to be written to a new file beside its own, and opened
    /// from there.
    Clone,
}

/// What becomes of what the tab bar asks for, with `n` boards open.
pub open spec fn tab_outcome(n: int, active: int, action: TabAction, has_file: bool) -> TabStep {
    match action {
        TabAction::Goto(i) => if i < n && i != active {
            TabStep::Show(i)
        } else {
            TabStep::Stay
        },
        TabAction::Next => if n > 1 {
            TabStep::Show(((active + 1) % n) as usize)
        } else {
            TabStep::OnlyOne
        },
        TabAction::Prev => if n > 1 {
            TabStep::Show(((active + n - 1) % n) as usize)
        } else {
            TabStep::OnlyOne
        },
        TabAction::New => if has_file {
            TabStep::Clone
        } else {
            TabStep::NoFile
        },
    }
}

/// What becomes of what the tab bar asks for.
pub fn tab_step(n: usize, active: usize, action: TabAction, has_file: bool) -> (r: TabStep)
    requires
        active < n,
    ensures
        r == tab_outcome(n as int, active as int, action, has_file),
        r matches TabStep::Show(i) ==> i < n && i != active,
{
    match action {
        TabAction::Goto(i) => if i < n && i != active {
            TabStep::Show(i)
        } else {
            TabStep::Stay
        },
        TabAction::Next => if n > 1 {
            proof {
                lemma_wrap(active as int + 1, n as int);
            }
            if active + 1 == n {
                TabStep::Show(0)
            } else {
                TabStep::Show(active + 1)
            }
        } else {
            TabStep::OnlyOne
        },
        TabAction::Prev => if n > 1 {
            proof {
                lemma_wrap(active as int + n as int - 1, n as int);
            }
            if active == 0 {
                TabStep::Show(n - 1)
            } else {
                TabStep::Show(active - 1)
            }
        } else {
            TabStep::OnlyOne
        },
        TabAction::New => if has_file {
            TabStep::Clone
        } else {
            TabStep::NoFile
        },
    }
}

pub(crate) proof fn lemma_wrap(i: int, n: int)
    requires
        n > 1,
        0 <= i < 2 * n,
    ensures
        i % n == if i < n {
            i
        } else {
            i - n
        },
{
    if i < n {
        vstd::arithmetic::div_mod::lemma_small_mod(i as nat, n as nat);
    } else {
        vstd::arithmetic::div_mod::lemma_mod_multiples_vanish(-1, i, n);
        vstd::arithmetic::div_mod::lemma_small_mod((i - n) as nat, n as nat);
    }
}

/// Going on to the next tab and back ends on the same one.
pub proof fn lemma_next_then_prev(n: int, active: int)
    requires
        n > 1,
        0 <= active < n,
        n <= usize::MAX,
    ensures
        tab_outcome(n, active, TabAction::Next, true) matches TabStep::Show(i) && tab_outcome(
            n,
            i as int,
            TabAction::Prev,
            true,
        ) == TabStep::Show(active as usize),
{
    lemma_wrap(active + 1, n);
    let next = if active + 1 < n {
        active + 1
    } else {
        0
    };
    lemma_wrap(next + n - 1, n);
}

/// The name of the `k`th clone of a board's file.
pub open spec fn clone_file(stem: Seq<char>, k: nat, ext: Seq<char>) -> Seq<char> {
    stem + "-"@ + decimal(k) + "."@ + ext
}

/// The name of the `k`th clone of a board's file.
pub fn clone_name(stem: &str, k: u64, ext: &str) -> (r: String)
    ensures
        r@ == clone_file(stem@, k as nat, ext@),
{
    let digits: Vec<char> = decimal_of(k);
    let n: usize = digits.len();
    let number: String = string_of(&digits, 0, n);
    proof {
        assert(digits@.subrange(0, n as int) =~= digits@);
    }
    let mut s: String = stem.to_owned();
    s.append("-");
    s.append(number.as_str());
    s.append(".");
    s.append(ext);
    s
}

impl App {
    /// Looks at the board from where another was looked at, so that the
    /// view stays put while the board under it changes.
    pub fn take_view(&mut self, camera: (i32, i32))
        ensures
            final(self)@ == (AppView { camera, ..old(self)@ }),
            old(self).wf() ==> final(self).wf(),
    {
        self.camera = camera;
    }

    /// Says something in the status line.
    pub fn say(&mut self, status: String)
        ensures
            final(self)@ == (AppView { status: status@, ..old(self)@ }),
            old(self).wf() ==> final(self).wf(),
    {
        self.status = status;
    }
}

} // verus!
