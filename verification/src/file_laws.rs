//! What is read from a file and from the command line.

use vstd::prelude::*;

use crate::canvas_io::{
    canvas_of, edges_of, lemma_counted_is_past_every_id, node_of, nodes_of, FileNodeView, FileView,
};
use crate::model::{numbered, past, CanvasView};
use crate::session::{
    asked, boards_from, clone_file, is_flag, lemma_first_arg, lemma_wrap, names_outline,
    tab_outcome, CommandView, TabAction, TabStep,
};
use crate::text::{decimal, lemma_decimal_injective};

verus! {

/// A box whose numbers a board can hold is read with just those; one that is
/// out of range is read with the nearest that can be held. A box is never
/// smaller than one cell.
pub proof fn lemma_read_box_is_the_nearest(f: FileNodeView, x: i32, y: i32, w: u16, h: u16)
    requires
        w >= 1,
        h >= 1,
    ensures
        ({
            let r = node_of(f).rect;
            &&& r.width >= 1 && r.height >= 1
            &&& nearer(r.x as int, x as int, f.x as int)
            &&& nearer(r.y as int, y as int, f.y as int)
            &&& nearer(r.width as int, w as int, f.width as int)
            &&& nearer(r.height as int, h as int, f.height as int)
        }),
{
}

/// Whether a number is no farther from a target than another.
pub open spec fn nearer(a: int, b: int, target: int) -> bool {
    (if a < target {
        target - a
    } else {
        a - target
    }) <= (if b < target {
        target - b
    } else {
        b - target
    })
}

/// A flag names no board; what follows `--api` does not either; anything
/// else does, and the boards come in the order in which they are named.
pub proof fn lemma_boards_are_what_is_no_flag(args: Seq<Seq<char>>, a: Seq<char>, b: Seq<char>)
    requires
        a != "--api"@,
    ensures
        is_flag(a) ==> boards_from(seq![a] + args, 0) == boards_from(args, 0),
        !is_flag(a) ==> boards_from(seq![a] + args, 0) == seq![a] + boards_from(args, 0),
        boards_from(seq!["--api"@, b] + args, 0) == boards_from(args, 0),
        boards_from(Seq::empty(), 0).len() == 0,
{
    lemma_boards_behind(seq![a], args, 0);
    lemma_boards_behind(seq!["--api"@, b], args, 0);
    let one = seq![a] + args;
    assert(one[0] == a);
    let two = seq!["--api"@, b] + args;
    assert(two[0] == "--api"@);
}

proof fn lemma_boards_behind(before: Seq<Seq<char>>, args: Seq<Seq<char>>, i: int)
    requires
        i >= 0,
    ensures
        boards_from(before + args, before.len() + i) == boards_from(args, i),
    decreases args.len() + 2 - i,
{
    let all = before + args;
    if i < args.len() {
        assert(all[before.len() + i] == args[i]);
        lemma_boards_behind(before, args, i + 1);
        if i + 1 < args.len() + 1 {
            lemma_boards_behind(before, args, i + 2);
        }
    }
}

/// A flag counts wherever it stands: another argument in front of it, or
/// behind, takes nothing away.
pub proof fn lemma_flag_counts_anywhere(before: Seq<Seq<char>>, behind: Seq<Seq<char>>)
    ensures
        asked(before + seq!["--schema"@] + behind) is Schema,
        !before.contains("--schema"@) && !behind.contains("--schema"@) ==> asked(
            before + seq!["--render"@] + behind,
        ) is Render,
        !before.contains("--schema"@) && !behind.contains("--schema"@) && !before.contains(
            "--render"@,
        ) && !behind.contains("--render"@) ==> asked(before + seq!["--api"@] + behind) is Api,
{
    reveal_strlit("--schema");
    reveal_strlit("--render");
    reveal_strlit("--api");
    let n = before.len() as int;
    let s = before + seq!["--schema"@] + behind;
    assert(s[n] == "--schema"@);
    let r = before + seq!["--render"@] + behind;
    assert(r[n] == "--render"@);
    assert("--render"@[2] == 'r' && "--schema"@[2] == 's' && "--api"@[2] == 'a');
    let a = before + seq!["--api"@] + behind;
    assert(a[n] == "--api"@);
    if !before.contains("--schema"@) && !behind.contains("--schema"@) {
        assert(!r.contains("--schema"@)) by {
            if r.contains("--schema"@) {
                let k = r.index_of("--schema"@);
                lemma_part(before, "--render"@, behind, k);
            }
        }
        assert(!a.contains("--schema"@)) by {
            if a.contains("--schema"@) {
                let k = a.index_of("--schema"@);
                lemma_part(before, "--api"@, behind, k);
            }
        }
    }
    if !before.contains("--render"@) && !behind.contains("--render"@) {
        assert(!a.contains("--render"@)) by {
            if a.contains("--render"@) {
                let k = a.index_of("--render"@);
                lemma_part(before, "--api"@, behind, k);
            }
        }
    }
}

proof fn lemma_part(
    before: Seq<Seq<char>>,
    mid: Seq<char>,
    behind: Seq<Seq<char>>,
    k: int,
)
    requires
        0 <= k < before.len() + 1 + behind.len(),
    ensures
        ({
            let s = (before + seq![mid] + behind)[k];
            before.contains(s) || s == mid || behind.contains(s)
        }),
{
    let all = before + seq![mid] + behind;
    let n = before.len() as int;
    if k < n {
        assert(all[k] == before[k]);
    } else if k > n {
        assert(all[k] == behind[k - n - 1]);
    }
}

/// With no flag the editor is asked for.
pub proof fn lemma_no_flag_edits(args: Seq<Seq<char>>)
    requires
        forall|i: int| 0 <= i < args.len() ==> !is_flag(#[trigger] args[i]),
    ensures
        asked(args) is Edit,
        boards_from(args, 0) == args,
{
    reveal_strlit("--schema");
    reveal_strlit("--render");
    reveal_strlit("--api");
    assert(is_flag("--schema"@) && is_flag("--render"@) && is_flag("--api"@));
    lemma_all_boards(args, 0);
    assert(args.skip(0) =~= args);
}

proof fn lemma_all_boards(args: Seq<Seq<char>>, i: int)
    requires
        0 <= i <= args.len(),
        forall|k: int| 0 <= k < args.len() ==> !is_flag(#[trigger] args[k]),
        is_flag("--api"@),
    ensures
        boards_from(args, i) == args.skip(i),
    decreases args.len() - i,
{
    if i < args.len() {
        lemma_all_boards(args, i + 1);
        assert(args.skip(i) =~= seq![args[i]] + args.skip(i + 1));
    } else {
        assert(args.skip(i) =~= Seq::<Seq<char>>::empty());
    }
}

/// The request text is the argument behind the first `--api`.
pub proof fn lemma_request_is_behind_its_flag(
    before: Seq<Seq<char>>,
    text: Seq<char>,
    behind: Seq<Seq<char>>,
)
    requires
        !before.contains("--api"@),
        !(before + seq!["--api"@, text] + behind).contains("--schema"@),
        !(before + seq!["--api"@, text] + behind).contains("--render"@),
    ensures
        asked(before + seq!["--api"@, text] + behind) == CommandView::Api(Some(text)),
{
    let all = before + seq!["--api"@, text] + behind;
    let n = before.len() as int;
    assert(all[n] == "--api"@);
    assert(all[n + 1] == text);
    assert forall|k: int| 0 <= k < n implies #[trigger] all[k] != "--api"@ by {
        assert(all[k] == before[k]);
        assert(before.contains(before[k]));
    }
    lemma_first_arg(all, "--api"@, n);
}

/// A name with something before its `.md` names an outline; a board's name
/// does not.
pub proof fn lemma_outline_names(stem: Seq<char>, other: Seq<char>)
    ensures
        names_outline(stem + ".md"@) <==> stem.len() > 0 && stem.last() != '/',
        !names_outline(other + ".canvas"@),
{
    reveal_strlit(".md");
    reveal_strlit(".canvas");
    let a = stem + ".md"@;
    assert(a.skip(a.len() - 3) =~= ".md"@);
    let b = other + ".canvas"@;
    assert(b.skip(b.len() - 3)[2] == 's');
}

/// Going on goes to the tab behind, and from the last to the first; going
/// back the other way. A tab that is clicked comes to the front.
pub proof fn lemma_tabs_stand_in_a_ring(n: int, active: int, i: usize, has_file: bool)
    requires
        1 < n <= usize::MAX,
        0 <= active < n,
    ensures
        active + 1 < n ==> tab_outcome(n, active, TabAction::Next, has_file) == TabStep::Show(
            (active + 1) as usize,
        ),
        active + 1 == n ==> tab_outcome(n, active, TabAction::Next, has_file) == TabStep::Show(0),
        active > 0 ==> tab_outcome(n, active, TabAction::Prev, has_file) == TabStep::Show(
            (active - 1) as usize,
        ),
        active == 0 ==> tab_outcome(n, active, TabAction::Prev, has_file) == TabStep::Show(
            (n - 1) as usize,
        ),
        i < n && i != active ==> tab_outcome(n, active, TabAction::Goto(i), has_file)
            == TabStep::Show(i),
        i >= n || i == active ==> tab_outcome(n, active, TabAction::Goto(i), has_file)
            == TabStep::Stay,
{
    lemma_wrap(active + 1, n);
    lemma_wrap(active + n - 1, n);
}

/// No two clones of a board's file have one name, and no clone has the
/// board's own.
pub proof fn lemma_clones_have_their_own_names(stem: Seq<char>, j: nat, k: nat, ext: Seq<char>)
    ensures
        clone_file(stem, j, ext) == clone_file(stem, k, ext) ==> j == k,
        clone_file(stem, k, ext) != stem + "."@ + ext,
{
    reveal_strlit("-");
    reveal_strlit(".");
    let (a, b) = (clone_file(stem, j, ext), clone_file(stem, k, ext));
    let n = stem.len() as int + 1;
    if a == b {
        let m = a.len() - 1 - ext.len();
        assert(a.subrange(n, m) =~= decimal(j));
        assert(b.subrange(n, m) =~= decimal(k));
        lemma_decimal_injective(j, k);
    }
    let own = stem + "."@ + ext;
    assert(b.len() > own.len());
}

/// No id that a board reads from a file is one that the board has yet to
/// give.
pub proof fn lemma_read_ids_are_counted(f: FileView, i: int, k: nat)
    requires
        0 <= i < f.nodes.len(),
        f.nodes[i].id == numbered(k),
        k <= u64::MAX,
    ensures
        k <= canvas_of(f).next_id,
{
    let c = canvas_of(f);
    lemma_counted_is_past_every_id(
        CanvasView { nodes: nodes_of(f.nodes), edges: edges_of(f.edges), next_id: 0 },
    );
    assert(c.nodes[i].id == numbered(k));
    if k > c.next_id {
        assert(past(c.nodes[i].id, c.next_id));
    }
}

} // verus!
