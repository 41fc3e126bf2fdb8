//! What a sidecar may hold before it is handed to the merge. A file that
//! anyone may write is read from end to end first: it has to be the whole
//! state of a board, in which every change refers only to changes that are
//! there too, and boxes and connectors are maps of plain values.
//!
//! Numbers are written in groups of seven bits, the lowest first, and every
//! byte but the last of a number has its top bit set.

use vstd::prelude::*;
use vstd::slice::slice_subrange;
use vstd::utf8::valid_utf8;

verus! {

/// Clocks and lengths stay below this.
pub const CLOCK_END: u64 = 0x4000_0000;

/// Client ids have 53 bits.
pub const CLIENT_END: u64 = 0x20_0000_0000_0000;

/// There are fewer writers than this: the merge passes over those that it is
/// done with one call deeper for each.
pub const WRITERS_END: u64 = 0x1000;

/// The id of a change: who made it, and at which of its clocks.
#[derive(Debug, Clone, Copy, PartialEq, Eq, Structural)]
pub struct Id {
    pub client: u64,
    pub clock: u64,
}

/// Where an item belongs.
#[derive(Debug, Clone, Copy, PartialEq, Eq, Structural)]
pub enum Spot {
    /// Under a key of a map that has a name.
    Root,
    /// Under a key of a map that is an item itself.
    Under(Id),
    /// In place of another item.
    Behind(Id),
}

/// What a block is.
#[derive(Debug, Clone, Copy, PartialEq, Eq, Structural)]
pub enum What {
    /// Changes of which nothing is left.
    Gone,
    /// A map.
    Fields(Spot),
    /// Plain values.
    Plain(Spot),
    /// An item of which only the spot is left.
    Deleted(Spot),
}

/// Consecutive changes of one writer, from clock `start` to before `end`.
#[derive(Debug, Clone, Copy, PartialEq, Eq, Structural)]
pub struct Block {
    pub start: u64,
    pub end: u64,
    pub what: What,
}

/// What a block is to a board.
#[derive(Debug, Clone, Copy, PartialEq, Eq, Structural)]
pub enum Level {
    Gone,
    /// A box or a connector.
    Entry,
    /// A field of one.
    Field,
}

/// The number at a place, in at most `max` bytes, and the place after it.
pub open spec fn number_at(b: Seq<u8>, i: int, max: nat) -> Option<(nat, int)>
    decreases max,
{
    if max == 0 || i < 0 || i >= b.len() {
        None
    } else if b[i] < 128 {
        Some((b[i] as nat, i + 1))
    } else {
        match number_at(b, i + 1, (max - 1) as nat) {
            Some((high, j)) => Some(((b[i] - 128 + 128 * high) as nat, j)),
            None => None,
        }
    }
}

/// A clock or a length.
pub open spec fn count_at(b: Seq<u8>, i: int) -> Option<(nat, int)> {
    match number_at(b, i, 5) {
        Some((n, j)) => if n < CLOCK_END {
            Some((n, j))
        } else {
            None
        },
        None => None,
    }
}

/// A client id.
pub open spec fn client_at(b: Seq<u8>, i: int) -> Option<(nat, int)> {
    match number_at(b, i, 8) {
        Some((n, j)) => if n < CLIENT_END {
            Some((n, j))
        } else {
            None
        },
        None => None,
    }
}

/// The place after a text: its length, then that many bytes of UTF-8.
pub open spec fn text_at(b: Seq<u8>, i: int) -> Option<int> {
    match count_at(b, i) {
        Some((n, j)) => if j + n <= b.len() && valid_utf8(b.subrange(j, j + n)) {
            Some(j + n)
        } else {
            None
        },
        None => None,
    }
}

/// The id of a change, its writer and its clock, and the place after it.
pub open spec fn id_at(b: Seq<u8>, i: int) -> Option<(Id, int)> {
    match client_at(b, i) {
        Some((client, j)) => match count_at(b, j) {
            Some((clock, k)) => Some((Id { client: client as u64, clock: clock as u64 }, k)),
            None => None,
        },
        None => None,
    }
}

/// The place `n` bytes on, if those are there.
pub open spec fn past_bytes(b: Seq<u8>, i: int, n: int) -> Option<int> {
    if i + n <= b.len() {
        Some(i + n)
    } else {
        None
    }
}

/// The place after a plain value: nothing, a truth value, a number or a
/// text, each behind a byte that says which.
pub open spec fn value_at(b: Seq<u8>, i: int) -> Option<int> {
    if i < 0 || i >= b.len() {
        None
    } else if b[i] == 127 || b[i] == 126 || b[i] == 121 || b[i] == 120 {
        Some(i + 1)
    } else if b[i] == 125 {
        match number_at(b, i + 1, 9) {
            Some((_, j)) => Some(j),
            None => None,
        }
    } else if b[i] == 124 {
        past_bytes(b, i + 1, 4)
    } else if b[i] == 123 || b[i] == 122 {
        past_bytes(b, i + 1, 8)
    } else if b[i] == 119 {
        text_at(b, i + 1)
    } else {
        None
    }
}

/// The place after `n` plain values.
pub open spec fn values_at(b: Seq<u8>, i: int, n: nat) -> Option<int>
    decreases n,
{
    if n == 0 {
        Some(i)
    } else {
        match value_at(b, i) {
            Some(j) => values_at(b, j, (n - 1) as nat),
            None => None,
        }
    }
}

/// How many changes the content of an entry stands for, and the place after
/// it: what is left of something deleted, a map, or plain values.
pub open spec fn content_at(b: Seq<u8>, i: int, kind: u8) -> Option<(nat, int)> {
    if kind == 7 {
        if 0 <= i < b.len() && b[i] == 1 {
            Some((1, i + 1))
        } else {
            None
        }
    } else if kind == 1 || kind == 8 {
        match count_at(b, i) {
            Some((n, j)) => if n == 0 {
                None
            } else if kind == 1 {
                Some((n, j))
            } else {
                match values_at(b, j, n) {
                    Some(k) => Some((n, k)),
                    None => None,
                }
            },
            None => None,
        }
    } else {
        None
    }
}

/// Where an item belongs, and the place after that: behind the item that it
/// replaces, or under a key of a map that has a name or an id.
pub open spec fn spot_at(b: Seq<u8>, i: int, replaces: bool) -> Option<(Spot, int)> {
    if replaces {
        match id_at(b, i) {
            Some((id, j)) => Some((Spot::Behind(id), j)),
            None => None,
        }
    } else {
        match count_at(b, i) {
            Some((named, j)) => {
                let map = if named == 1 {
                    match text_at(b, j) {
                        Some(k) => Some((Spot::Root, k)),
                        None => None,
                    }
                } else if named == 0 {
                    match id_at(b, j) {
                        Some((id, k)) => Some((Spot::Under(id), k)),
                        None => None,
                    }
                } else {
                    None
                };
                match map {
                    Some((spot, k)) => match text_at(b, k) {
                        Some(l) => Some((spot, l)),
                        None => None,
                    },
                    None => None,
                }
            },
            None => None,
        }
    }
}

/// What an item of a kind at a spot is.
pub open spec fn item_of_kind(kind: u8, spot: Spot) -> What {
    if kind == 7 {
        What::Fields(spot)
    } else if kind == 8 {
        What::Plain(spot)
    } else {
        What::Deleted(spot)
    }
}

/// A block, how many changes it stands for, at least one, and the place
/// after it: changes that were collected, or an item.
pub open spec fn block_at(b: Seq<u8>, i: int) -> Option<(What, nat, int)> {
    if i < 0 || i >= b.len() {
        None
    } else if b[i] == 0 {
        match count_at(b, i + 1) {
            Some((n, j)) => if n > 0 {
                Some((What::Gone, n, j))
            } else {
                None
            },
            None => None,
        }
    } else {
        let flags = b[i] / 32;
        if flags == 1 || flags == 4 || flags == 5 {
            match spot_at(b, i + 1, flags != 1) {
                Some((spot, j)) => match content_at(b, j, b[i] % 32) {
                    Some((n, k)) => Some((item_of_kind(b[i] % 32, spot), n, k)),
                    None => None,
                },
                None => None,
            }
        } else {
            None
        }
    }
}

/// `n` more blocks of one writer behind those read already, the clock at
/// which they end, and the place after them.
pub open spec fn blocks_at(b: Seq<u8>, i: int, n: nat, clock: nat, read: Seq<Block>) -> Option<
    (Seq<Block>, nat, int),
>
    decreases n,
{
    if n == 0 {
        Some((read, clock, i))
    } else {
        match block_at(b, i) {
            Some((what, len, j)) => if clock + len < CLOCK_END {
                blocks_at(
                    b,
                    j,
                    (n - 1) as nat,
                    clock + len,
                    read.push(Block { start: clock as u64, end: (clock + len) as u64, what }),
                )
            } else {
                None
            },
            None => None,
        }
    }
}

/// All that one writer did, from its first change on.
pub ghost struct Story {
    pub client: u64,
    pub blocks: Seq<Block>,
    /// The clock past the last change.
    pub end: u64,
}

/// The story of one writer, and the place after it.
pub open spec fn story_at(b: Seq<u8>, i: int) -> Option<(Story, int)> {
    match count_at(b, i) {
        Some((n, j)) => if n == 0 {
            None
        } else {
            match client_at(b, j) {
                Some((client, k)) => match count_at(b, k) {
                    Some((clock, l)) => if clock != 0 {
                        None
                    } else {
                        match blocks_at(b, l, n, 0, Seq::empty()) {
                            Some((blocks, end, m)) => Some(
                                (Story { client: client as u64, blocks, end: end as u64 }, m),
                            ),
                            None => None,
                        }
                    },
                    None => None,
                },
                None => None,
            }
        },
        None => None,
    }
}

/// The stories of `n` more writers behind those read already, in falling
/// order of their ids, and the place after them.
pub open spec fn stories_at(b: Seq<u8>, i: int, n: nat, below: nat, read: Seq<Story>) -> Option<
    (Seq<Story>, int),
>
    decreases n,
{
    if n == 0 {
        Some((read, i))
    } else {
        match story_at(b, i) {
            Some((story, j)) => if story.client < below {
                stories_at(b, j, (n - 1) as nat, story.client as nat, read.push(story))
            } else {
                None
            },
            None => None,
        }
    }
}

/// The first of some stories, from the `w`th on, that is a writer's.
pub open spec fn story_of(all: Seq<Story>, client: u64, w: int) -> Option<int>
    decreases all.len() - w,
{
    if w < 0 || w >= all.len() {
        None
    } else if all[w].client == client {
        Some(w)
    } else {
        story_of(all, client, w + 1)
    }
}

/// The place after `n` ranges of deleted changes, in order and apart, none
/// past the last change of their writer.
pub open spec fn ranges_at(b: Seq<u8>, i: int, n: nat, from: nat, end: nat) -> Option<int>
    decreases n,
{
    if n == 0 {
        Some(i)
    } else {
        match count_at(b, i) {
            Some((start, j)) => match count_at(b, j) {
                Some((len, k)) => if from <= start && len > 0 && start + len <= end {
                    ranges_at(b, k, (n - 1) as nat, start + len, end)
                } else {
                    None
                },
                None => None,
            },
            None => None,
        }
    }
}

/// The place after what is deleted of one writer's changes.
pub open spec fn deleted_at(b: Seq<u8>, i: int, all: Seq<Story>) -> Option<int> {
    match client_at(b, i) {
        Some((client, j)) => match (count_at(b, j), story_of(all, client as u64, 0)) {
            (Some((n, k)), Some(w)) => ranges_at(b, k, n, 0, all[w].end as nat),
            _ => None,
        },
        None => None,
    }
}

/// The place after what is deleted of `n` writers' changes.
pub open spec fn deletions_at(b: Seq<u8>, i: int, n: nat, all: Seq<Story>) -> Option<int>
    decreases n,
{
    if n == 0 {
        Some(i)
    } else {
        match deleted_at(b, i, all) {
            Some(j) => deletions_at(b, j, (n - 1) as nat, all),
            None => None,
        }
    }
}

/// The stories in some bytes, if those are every writer's story and then
/// what of all that is deleted.
pub open spec fn stories_in(b: Seq<u8>) -> Option<Seq<Story>> {
    match count_at(b, 0) {
        Some((n, j)) => if n >= WRITERS_END {
            None
        } else {
            match stories_at(b, j, n, CLIENT_END as nat, Seq::empty()) {
                Some((all, k)) => match count_at(b, k) {
                    Some((m, l)) => if deletions_at(b, l, m, all) is Some {
                        Some(all)
                    } else {
                        None
                    },
                    None => None,
                },
                None => None,
            }
        },
        None => None,
    }
}

/// Whether bytes are no longer than a length may be, and start with a number
/// of writers that there may be.
pub open spec fn is_small(b: Seq<u8>) -> bool {
    &&& b.len() < CLOCK_END
    &&& count_at(b, 0) matches Some((n, _)) && n < WRITERS_END
}

/// The first block, from the `i`th on, that a clock falls into.
pub open spec fn block_of(blocks: Seq<Block>, clock: u64, i: int) -> Option<int>
    decreases blocks.len() - i,
{
    if i < 0 || i >= blocks.len() {
        None
    } else if blocks[i].start <= clock < blocks[i].end {
        Some(i)
    } else {
        block_of(blocks, clock, i + 1)
    }
}

/// On which level a change is, as far as those known tell: for each writer
/// those of its first blocks.
pub open spec fn level_at(all: Seq<Story>, known: Seq<Seq<Level>>, id: Id) -> Option<Level> {
    match story_of(all, id.client, 0) {
        Some(w) => match block_of(all[w].blocks, id.clock, 0) {
            Some(i) => if w < known.len() && i < known[w].len() {
                Some(known[w][i])
            } else {
                None
            },
            None => None,
        },
        None => None,
    }
}

/// On which level a block is, where that is known of what it refers to. A
/// map is an entry, under a root or behind another entry; a plain value is a
/// field, under an entry or behind another field.
pub open spec fn level_of(all: Seq<Story>, known: Seq<Seq<Level>>, what: What) -> Option<Level> {
    match what {
        What::Gone => Some(Level::Gone),
        What::Fields(Spot::Root) => Some(Level::Entry),
        What::Fields(Spot::Behind(id)) => if level_at(all, known, id) == Some(Level::Entry) {
            Some(Level::Entry)
        } else {
            None
        },
        What::Fields(Spot::Under(_)) => None,
        What::Plain(Spot::Root) => None,
        What::Plain(Spot::Behind(id)) => if level_at(all, known, id) == Some(Level::Field) {
            Some(Level::Field)
        } else {
            None
        },
        What::Plain(Spot::Under(id)) => if level_at(all, known, id) == Some(Level::Entry) {
            Some(Level::Field)
        } else {
            None
        },
        What::Deleted(Spot::Root) => Some(Level::Entry),
        What::Deleted(Spot::Behind(id)) => match level_at(all, known, id) {
            Some(Level::Entry) => Some(Level::Entry),
            Some(Level::Field) => Some(Level::Field),
            _ => None,
        },
        What::Deleted(Spot::Under(id)) => if level_at(all, known, id) == Some(Level::Entry) {
            Some(Level::Field)
        } else {
            None
        },
    }
}

/// The known levels with those of one writer's next blocks, as far as they
/// refer to known ones.
pub open spec fn advanced(all: Seq<Story>, known: Seq<Seq<Level>>, w: int) -> Seq<Seq<Level>>
    decreases all[w].blocks.len() - known[w].len(),
{
    let i = known[w].len() as int;
    if 0 <= w < known.len() && i < all[w].blocks.len() {
        match level_of(all, known, all[w].blocks[i].what) {
            Some(level) => advanced(all, known.update(w, known[w].push(level)), w),
            None => known,
        }
    } else {
        known
    }
}

/// The known levels after each writer from the `w`th on had its turn.
pub open spec fn after_turns(all: Seq<Story>, known: Seq<Seq<Level>>, w: int) -> Seq<Seq<Level>>
    decreases all.len() - w,
{
    if w < 0 || w >= all.len() {
        known
    } else {
        after_turns(all, advanced(all, known, w), w + 1)
    }
}

/// The known levels after `n` rounds of turns.
pub open spec fn after_rounds(all: Seq<Story>, known: Seq<Seq<Level>>, n: nat) -> Seq<Seq<Level>>
    decreases n,
{
    if n == 0 {
        known
    } else {
        after_rounds(all, after_turns(all, known, 0), (n - 1) as nat)
    }
}

/// How many blocks the first `w` stories have.
pub open spec fn size_of(all: Seq<Story>, w: int) -> nat
    decreases w,
{
    if w <= 0 {
        0
    } else {
        size_of(all, w - 1) + all[w - 1].blocks.len()
    }
}

/// The levels of all blocks that refer, in the end, to nothing but what is
/// there: as many rounds are enough as there are blocks.
pub open spec fn levels_of(all: Seq<Story>) -> Seq<Seq<Level>> {
    let none = Seq::new(all.len(), |w: int| Seq::<Level>::empty());
    after_rounds(all, none, size_of(all, all.len() as int))
}

/// Whether every block has its level.
pub open spec fn all_levelled(all: Seq<Story>, known: Seq<Seq<Level>>) -> bool {
    forall|w: int| 0 <= w < all.len() ==> (#[trigger] known[w]).len() == all[w].blocks.len()
}

/// Whether bytes are the whole state of a board: no change is missing that
/// another refers to, none refers to itself by way of others, and boxes and
/// connectors are maps of plain values.
pub open spec fn readable(b: Seq<u8>) -> bool {
    match stories_in(b) {
        Some(all) => all_levelled(all, levels_of(all)),
        None => false,
    }
}

/// Whether two blocks of one writer have a change in common.
pub open spec fn overlap(x: Block, y: Block) -> bool {
    x.start < y.end && y.start < x.end
}

/// Whether two blocks with a change in common can be of one story: they are
/// on one level, but for what was collected.
pub open spec fn alike(x: Level, y: Level) -> bool {
    x == Level::Gone || y == Level::Gone || x == y
}

/// Whether two states agree on what the writers did that both know of.
pub open spec fn agree(all: Seq<Story>, more: Seq<Story>) -> bool {
    forall|v: int, w: int, i: int, j: int|
        0 <= v < all.len() && 0 <= w < more.len() && all[v].client == more[w].client && 0 <= i
            < all[v].blocks.len() && 0 <= j < more[w].blocks.len() && overlap(
            #[trigger] all[v].blocks[i],
            #[trigger] more[w].blocks[j],
        ) ==> alike(levels_of(all)[v][i], levels_of(more)[w][j])
}

/// Whether a state holds no change of a writer from a clock on.
pub open spec fn not_ahead(all: Seq<Story>, client: u64, clock: nat) -> bool {
    forall|w: int| 0 <= w < all.len() && (#[trigger] all[w]).client == client ==> all[w].end
        <= clock
}

/// Whether bytes can be merged into a document with a state, given the
/// document's own id and clock: both can be read, they agree, and nothing in
/// the bytes is by the document itself that it does not know.
pub open spec fn mergeable(own: Seq<u8>, client: u64, clock: nat, b: Seq<u8>) -> bool {
    &&& readable(own)
    &&& readable(b)
    &&& agree(stories_in(own)->0, stories_in(b)->0)
    &&& not_ahead(stories_in(b)->0, client, clock)
}

/// The state of a document with nothing in it agrees with every state, and
/// only what a writer did itself can be news to it of its own doing.
pub proof fn lemma_new_document_takes_any_state(client: u64, b: Seq<u8>)
    requires
        readable(b),
        not_ahead(stories_in(b)->0, client, 0),
    ensures
        mergeable(seq![0u8, 0u8], client, 0, b),
{
    let own = seq![0u8, 0u8];
    assert(number_at(own, 0, 5) == Some((0nat, 1int)));
    assert(number_at(own, 1, 5) == Some((0nat, 2int)));
    assert(stories_in(own) == Some(Seq::<Story>::empty()));
}

/// Calls `std::str::from_utf8`: whether bytes are valid UTF-8.
#[verifier::external_body]
fn is_text(b: &[u8]) -> (r: bool)
    ensures
        r == valid_utf8(b@),
{
    std::str::from_utf8(b).is_ok()
}

/// The number and the place, as a reader has them.
pub open spec fn found_number(r: Option<(u64, usize)>) -> Option<(nat, int)> {
    match r {
        Some((n, j)) => Some((n as nat, j as int)),
        None => None,
    }
}

/// What was read, and the place, as a reader has it.
pub open spec fn found<T>(r: Option<(T, usize)>) -> Option<(T, int)> {
    match r {
        Some((t, j)) => Some((t, j as int)),
        None => None,
    }
}

/// The place, as a reader has it.
pub open spec fn found_place(r: Option<usize>) -> Option<int> {
    match r {
        Some(j) => Some(j as int),
        None => None,
    }
}

spec fn power(n: nat) -> nat
    decreases n,
{
    if n == 0 {
        1
    } else {
        128 * power((n - 1) as nat)
    }
}

fn read_number(b: &[u8], i: usize, max: u8) -> (r: Option<(u64, usize)>)
    requires
        i <= b@.len(),
        max <= 9,
    ensures
        found_number(r) == number_at(b@, i as int, max as nat),
        r matches Some((n, j)) ==> j <= b@.len() && n < power(max as nat),
    decreases max,
{
    proof {
        reveal_with_fuel(power, 10);
    }
    if max == 0 || i >= b.len() {
        return None;
    }
    let low: u8 = b[i];
    if low < 128 {
        return Some((low as u64, i + 1));
    }
    match read_number(b, i + 1, max - 1) {
        Some((high, j)) => Some((low as u64 - 128 + 128 * high, j)),
        None => None,
    }
}

fn read_count(b: &[u8], i: usize) -> (r: Option<(u64, usize)>)
    requires
        i <= b@.len(),
    ensures
        found_number(r) == count_at(b@, i as int),
        r matches Some((n, j)) ==> j <= b@.len() && n < CLOCK_END,
{
    match read_number(b, i, 5) {
        Some((n, j)) => if n < CLOCK_END {
            Some((n, j))
        } else {
            None
        },
        None => None,
    }
}

fn read_client(b: &[u8], i: usize) -> (r: Option<(u64, usize)>)
    requires
        i <= b@.len(),
    ensures
        found_number(r) == client_at(b@, i as int),
        r matches Some((n, j)) ==> j <= b@.len() && n < CLIENT_END,
{
    match read_number(b, i, 8) {
        Some((n, j)) => if n < CLIENT_END {
            Some((n, j))
        } else {
            None
        },
        None => None,
    }
}

fn read_text(b: &[u8], i: usize) -> (r: Option<usize>)
    requires
        i <= b@.len(),
    ensures
        found_place(r) == text_at(b@, i as int),
        r matches Some(j) ==> j <= b@.len(),
{
    match read_count(b, i) {
        Some((n, j)) => {
            let left: usize = b.len() - j;
            if n <= left as u64 {
                let end: usize = j + n as usize;
                if is_text(slice_subrange(b, j, end)) {
                    Some(end)
                } else {
                    None
                }
            } else {
                None
            }
        },
        None => None,
    }
}

fn read_id(b: &[u8], i: usize) -> (r: Option<(Id, usize)>)
    requires
        i <= b@.len(),
    ensures
        found(r) == id_at(b@, i as int),
        r matches Some((_, j)) ==> j <= b@.len(),
{
    match read_client(b, i) {
        Some((client, j)) => match read_count(b, j) {
            Some((clock, k)) => Some((Id { client, clock }, k)),
            None => None,
        },
        None => None,
    }
}

fn skip_bytes(b: &[u8], i: usize, n: usize) -> (r: Option<usize>)
    requires
        i <= b@.len(),
    ensures
        found_place(r) == past_bytes(b@, i as int, n as int),
        r matches Some(j) ==> j <= b@.len(),
{
    if n <= b.len() - i {
        Some(i + n)
    } else {
        None
    }
}

fn read_value(b: &[u8], i: usize) -> (r: Option<usize>)
    requires
        i <= b@.len(),
    ensures
        found_place(r) == value_at(b@, i as int),
        r matches Some(j) ==> j <= b@.len(),
{
    if i >= b.len() {
        return None;
    }
    let tag: u8 = b[i];
    if tag == 127 || tag == 126 || tag == 121 || tag == 120 {
        Some(i + 1)
    } else if tag == 125 {
        match read_number(b, i + 1, 9) {
            Some((_, j)) => Some(j),
            None => None,
        }
    } else if tag == 124 {
        skip_bytes(b, i + 1, 4)
    } else if tag == 123 || tag == 122 {
        skip_bytes(b, i + 1, 8)
    } else if tag == 119 {
        read_text(b, i + 1)
    } else {
        None
    }
}

fn read_values(b: &[u8], i: usize, n: u64) -> (r: Option<usize>)
    requires
        i <= b@.len(),
    ensures
        found_place(r) == values_at(b@, i as int, n as nat),
        r matches Some(j) ==> j <= b@.len(),
{
    let mut at: usize = i;
    let mut left: u64 = n;
    while left > 0
        invariant
            at <= b@.len(),
            values_at(b@, i as int, n as nat) == values_at(b@, at as int, left as nat),
        decreases left,
    {
        match read_value(b, at) {
            Some(j) => {
                at = j;
            },
            None => {
                return None;
            },
        }
        left -= 1;
    }
    Some(at)
}

fn read_content(b: &[u8], i: usize, kind: u8) -> (r: Option<(u64, usize)>)
    requires
        i <= b@.len(),
    ensures
        found_number(r) == content_at(b@, i as int, kind),
        r matches Some((n, j)) ==> j <= b@.len() && n < CLOCK_END,
{
    if kind == 7 {
        if i < b.len() && b[i] == 1 {
            Some((1, i + 1))
        } else {
            None
        }
    } else if kind == 1 || kind == 8 {
        match read_count(b, i) {
            Some((n, j)) => if n == 0 {
                None
            } else if kind == 1 {
                Some((n, j))
            } else {
                match read_values(b, j, n) {
                    Some(k) => Some((n, k)),
                    None => None,
                }
            },
            None => None,
        }
    } else {
        None
    }
}

fn read_spot(b: &[u8], i: usize, replaces: bool) -> (r: Option<(Spot, usize)>)
    requires
        i <= b@.len(),
    ensures
        found(r) == spot_at(b@, i as int, replaces),
        r matches Some((_, j)) ==> j <= b@.len(),
{
    if replaces {
        return match read_id(b, i) {
            Some((id, j)) => Some((Spot::Behind(id), j)),
            None => None,
        };
    }
    match read_count(b, i) {
        Some((named, j)) => {
            let map: Option<(Spot, usize)> = if named == 1 {
                match read_text(b, j) {
                    Some(k) => Some((Spot::Root, k)),
                    None => None,
                }
            } else if named == 0 {
                match read_id(b, j) {
                    Some((id, k)) => Some((Spot::Under(id), k)),
                    None => None,
                }
            } else {
                None
            };
            match map {
                Some((spot, k)) => match read_text(b, k) {
                    Some(l) => Some((spot, l)),
                    None => None,
                },
                None => None,
            }
        },
        None => None,
    }
}

fn read_block(b: &[u8], i: usize) -> (r: Option<(What, u64, usize)>)
    requires
        i <= b@.len(),
    ensures
        match r {
            Some((what, n, j)) => block_at(b@, i as int) == Some((what, n as nat, j as int)),
            None => block_at(b@, i as int) is None,
        },
        r matches Some((_, n, j)) ==> j <= b@.len() && n < CLOCK_END,
{
    if i >= b.len() {
        return None;
    }
    let head: u8 = b[i];
    if head == 0 {
        match read_count(b, i + 1) {
            Some((n, j)) => if n > 0 {
                Some((What::Gone, n, j))
            } else {
                None
            },
            None => None,
        }
    } else {
        let flags: u8 = head / 32;
        if flags == 1 || flags == 4 || flags == 5 {
            match read_spot(b, i + 1, flags != 1) {
                Some((spot, j)) => match read_content(b, j, head % 32) {
                    Some((n, k)) => {
                        let what: What = if head % 32 == 7 {
                            What::Fields(spot)
                        } else if head % 32 == 8 {
                            What::Plain(spot)
                        } else {
                            What::Deleted(spot)
                        };
                        Some((what, n, k))
                    },
                    None => None,
                },
                None => None,
            }
        } else {
            None
        }
    }
}

fn read_blocks(b: &[u8], i: usize, n: u64) -> (r: Option<(Vec<Block>, u64, usize)>)
    requires
        i <= b@.len(),
    ensures
        match r {
            Some((blocks, end, j)) => blocks_at(b@, i as int, n as nat, 0, Seq::empty()) == Some(
                (blocks@, end as nat, j as int),
            ) && j <= b@.len() && end < CLOCK_END,
            None => blocks_at(b@, i as int, n as nat, 0, Seq::empty()) is None,
        },
{
    let mut out: Vec<Block> = Vec::new();
    let mut at: usize = i;
    let mut left: u64 = n;
    let mut now: u64 = 0;
    proof {
        assert(out@ =~= Seq::empty());
    }
    while left > 0
        invariant
            at <= b@.len(),
            now < CLOCK_END,
            blocks_at(b@, i as int, n as nat, 0, Seq::empty()) == blocks_at(
                b@,
                at as int,
                left as nat,
                now as nat,
                out@,
            ),
        decreases left,
    {
        match read_block(b, at) {
            Some((what, len, j)) => {
                if now + len >= CLOCK_END {
                    return None;
                }
                out.push(Block { start: now, end: now + len, what });
                now += len;
                at = j;
            },
            None => {
                return None;
            },
        }
        left -= 1;
    }
    Some((out, now, at))
}

/// All that one writer did, from its first change on.
#[derive(Debug)]
pub struct Writer {
    pub client: u64,
    pub blocks: Vec<Block>,
    pub end: u64,
}

impl View for Writer {
    type V = Story;

    open spec fn view(&self) -> Story {
        Story { client: self.client, blocks: self.blocks@, end: self.end }
    }
}

/// The stories of some writers.
pub open spec fn stories(all: Seq<Writer>) -> Seq<Story> {
    Seq::new(all.len(), |w: int| all[w]@)
}

fn read_writer(b: &[u8], i: usize) -> (r: Option<(Writer, usize)>)
    requires
        i <= b@.len(),
    ensures
        match r {
            Some((writer, j)) => story_at(b@, i as int) == Some((writer@, j as int)) && j
                <= b@.len(),
            None => story_at(b@, i as int) is None,
        },
{
    match read_count(b, i) {
        Some((n, j)) => if n == 0 {
            None
        } else {
            match read_client(b, j) {
                Some((client, k)) => match read_count(b, k) {
                    Some((clock, l)) => if clock != 0 {
                        None
                    } else {
                        match read_blocks(b, l, n) {
                            Some((blocks, end, m)) => Some((Writer { client, blocks, end }, m)),
                            None => None,
                        }
                    },
                    None => None,
                },
                None => None,
            }
        },
        None => None,
    }
}

fn read_writers(b: &[u8], i: usize, n: u64) -> (r: Option<(Vec<Writer>, usize)>)
    requires
        i <= b@.len(),
    ensures
        match r {
            Some((all, j)) => stories_at(
                b@,
                i as int,
                n as nat,
                CLIENT_END as nat,
                Seq::empty(),
            ) == Some((stories(all@), j as int)) && j <= b@.len(),
            None => stories_at(b@, i as int, n as nat, CLIENT_END as nat, Seq::empty()) is None,
        },
{
    let mut out: Vec<Writer> = Vec::new();
    let mut at: usize = i;
    let mut left: u64 = n;
    let mut below: u64 = CLIENT_END;
    proof {
        assert(stories(out@) =~= Seq::empty());
    }
    while left > 0
        invariant
            at <= b@.len(),
            stories_at(b@, i as int, n as nat, CLIENT_END as nat, Seq::empty()) == stories_at(
                b@,
                at as int,
                left as nat,
                below as nat,
                stories(out@),
            ),
        decreases left,
    {
        match read_writer(b, at) {
            Some((writer, j)) => {
                if writer.client >= below {
                    return None;
                }
                below = writer.client;
                at = j;
                let ghost before = stories(out@);
                let ghost shown = writer@;
                out.push(writer);
                proof {
                    assert(stories(out@) =~= before.push(shown));
                }
            },
            None => {
                return None;
            },
        }
        left -= 1;
    }
    Some((out, at))
}

fn find_writer(all: &Vec<Writer>, client: u64) -> (r: Option<usize>)
    ensures
        found_place(r) == story_of(stories(all@), client, 0),
        r matches Some(w) ==> w < all@.len(),
{
    let mut w: usize = 0;
    while w < all.len()
        invariant
            w <= all@.len(),
            story_of(stories(all@), client, 0) == story_of(stories(all@), client, w as int),
        decreases all@.len() - w,
    {
        if all[w].client == client {
            return Some(w);
        }
        w += 1;
    }
    None
}

fn read_ranges(b: &[u8], i: usize, n: u64, end: u64) -> (r: Option<usize>)
    requires
        i <= b@.len(),
    ensures
        found_place(r) == ranges_at(b@, i as int, n as nat, 0, end as nat),
        r matches Some(j) ==> j <= b@.len(),
{
    let mut at: usize = i;
    let mut left: u64 = n;
    let mut from: u64 = 0;
    while left > 0
        invariant
            at <= b@.len(),
            ranges_at(b@, i as int, n as nat, 0, end as nat) == ranges_at(
                b@,
                at as int,
                left as nat,
                from as nat,
                end as nat,
            ),
        decreases left,
    {
        match read_count(b, at) {
            Some((start, j)) => match read_count(b, j) {
                Some((len, k)) => {
                    if start < from || len == 0 || start + len > end {
                        return None;
                    }
                    from = start + len;
                    at = k;
                },
                None => {
                    return None;
                },
            },
            None => {
                return None;
            },
        }
        left -= 1;
    }
    Some(at)
}

fn read_deletions(b: &[u8], i: usize, n: u64, all: &Vec<Writer>) -> (r: bool)
    requires
        i <= b@.len(),
    ensures
        r == (deletions_at(b@, i as int, n as nat, stories(all@)) is Some),
{
    let mut at: usize = i;
    let mut left: u64 = n;
    while left > 0
        invariant
            at <= b@.len(),
            deletions_at(b@, i as int, n as nat, stories(all@)) == deletions_at(
                b@,
                at as int,
                left as nat,
                stories(all@),
            ),
        decreases left,
    {
        let place: Option<usize> = match read_client(b, at) {
            Some((client, j)) => match (read_count(b, j), find_writer(all, client)) {
                (Some((k, l)), Some(w)) => read_ranges(b, l, k, all[w].end),
                _ => None,
            },
            None => None,
        };
        proof {
            assert(found_place(place) == deleted_at(b@, at as int, stories(all@)));
        }
        match place {
            Some(j) => {
                at = j;
            },
            None => {
                return false;
            },
        }
        left -= 1;
    }
    true
}

fn read_stories(b: &[u8]) -> (r: Option<Vec<Writer>>)
    ensures
        match r {
            Some(all) => stories_in(b@) == Some(stories(all@)),
            None => stories_in(b@) is None,
        },
{
    match read_count(b, 0) {
        Some((n, j)) => if n >= WRITERS_END {
            None
        } else {
            match read_writers(b, j, n) {
                Some((all, k)) => match read_count(b, k) {
                    Some((m, l)) => if read_deletions(b, l, m, &all) {
                        Some(all)
                    } else {
                        None
                    },
                    None => None,
                },
                None => None,
            }
        },
        None => None,
    }
}

/// Whether bytes are no longer than a length may be, and start with a number
/// of writers that there may be.
pub fn has_small_size(b: &[u8]) -> (r: bool)
    ensures
        r == is_small(b@),
{
    match read_count(b, 0) {
        Some((n, _)) => n < WRITERS_END && (b.len() as u64) < CLOCK_END,
        None => false,
    }
}

/// The levels known of each writer's blocks.
pub open spec fn rows(known: Seq<Vec<Level>>) -> Seq<Seq<Level>> {
    Seq::new(known.len(), |w: int| known[w]@)
}

/// How many levels are known of the first `w` writers.
spec fn known_upto(known: Seq<Seq<Level>>, w: int) -> nat
    decreases w,
{
    if w <= 0 {
        0
    } else {
        known_upto(known, w - 1) + known[w - 1].len()
    }
}

proof fn lemma_one_more(known: Seq<Seq<Level>>, v: int, level: Level, w: int)
    requires
        0 <= v < known.len(),
        0 <= w <= known.len(),
    ensures
        known_upto(known.update(v, known[v].push(level)), w) == known_upto(known, w) + if v < w {
            1nat
        } else {
            0
        },
    decreases w,
{
    if w > 0 {
        lemma_one_more(known, v, level, w - 1);
    }
}

proof fn lemma_known_in_size(all: Seq<Story>, known: Seq<Seq<Level>>, w: int)
    requires
        0 <= w <= all.len() == known.len(),
        forall|v: int| 0 <= v < all.len() ==> (#[trigger] known[v]).len() <= all[v].blocks.len(),
    ensures
        known_upto(known, w) <= size_of(all, w),
    decreases w,
{
    if w > 0 {
        lemma_known_in_size(all, known, w - 1);
    }
}

/// Once a round of turns changes nothing, no later one does.
proof fn lemma_rounds_rest(all: Seq<Story>, known: Seq<Seq<Level>>, n: nat)
    requires
        after_turns(all, known, 0) == known,
    ensures
        after_rounds(all, known, n) == known,
    decreases n,
{
    if n > 0 {
        lemma_rounds_rest(all, known, (n - 1) as nat);
    }
}

fn find_block(blocks: &Vec<Block>, clock: u64) -> (r: Option<usize>)
    ensures
        found_place(r) == block_of(blocks@, clock, 0),
        r matches Some(i) ==> i < blocks@.len(),
{
    let mut i: usize = 0;
    while i < blocks.len()
        invariant
            i <= blocks@.len(),
            block_of(blocks@, clock, 0) == block_of(blocks@, clock, i as int),
        decreases blocks@.len() - i,
    {
        if blocks[i].start <= clock && clock < blocks[i].end {
            return Some(i);
        }
        i += 1;
    }
    None
}

fn find_level(all: &Vec<Writer>, known: &Vec<Vec<Level>>, id: Id) -> (r: Option<Level>)
    requires
        known@.len() == all@.len(),
    ensures
        r == level_at(stories(all@), rows(known@), id),
{
    match find_writer(all, id.client) {
        Some(w) => match find_block(&all[w].blocks, id.clock) {
            Some(i) => if i < known[w].len() {
                Some(known[w][i])
            } else {
                None
            },
            None => None,
        },
        None => None,
    }
}

fn find_what_level(all: &Vec<Writer>, known: &Vec<Vec<Level>>, what: What) -> (r: Option<Level>)
    requires
        known@.len() == all@.len(),
    ensures
        r == level_of(stories(all@), rows(known@), what),
{
    match what {
        What::Gone => Some(Level::Gone),
        What::Fields(Spot::Root) => Some(Level::Entry),
        What::Fields(Spot::Behind(id)) => match find_level(all, known, id) {
            Some(Level::Entry) => Some(Level::Entry),
            _ => None,
        },
        What::Fields(Spot::Under(_)) => None,
        What::Plain(Spot::Root) => None,
        What::Plain(Spot::Behind(id)) => match find_level(all, known, id) {
            Some(Level::Field) => Some(Level::Field),
            _ => None,
        },
        What::Plain(Spot::Under(id)) => match find_level(all, known, id) {
            Some(Level::Entry) => Some(Level::Field),
            _ => None,
        },
        What::Deleted(Spot::Root) => Some(Level::Entry),
        What::Deleted(Spot::Behind(id)) => match find_level(all, known, id) {
            Some(Level::Entry) => Some(Level::Entry),
            Some(Level::Field) => Some(Level::Field),
            _ => None,
        },
        What::Deleted(Spot::Under(id)) => match find_level(all, known, id) {
            Some(Level::Entry) => Some(Level::Field),
            _ => None,
        },
    }
}

/// Whether no more levels are known of a writer than it has blocks.
spec fn within_blocks(all: Seq<Story>, known: Seq<Seq<Level>>) -> bool {
    &&& known.len() == all.len()
    &&& forall|w: int| 0 <= w < all.len() ==> (#[trigger] known[w]).len() <= all[w].blocks.len()
}

/// Gives one writer its turn; says whether anything became known.
fn advance(all: &Vec<Writer>, known: &mut Vec<Vec<Level>>, w: usize) -> (r: bool)
    requires
        w < all@.len(),
        within_blocks(stories(all@), rows(old(known)@)),
    ensures
        within_blocks(stories(all@), rows(final(known)@)),
        rows(final(known)@) == advanced(stories(all@), rows(old(known)@), w as int),
        known_upto(rows(final(known)@), all@.len() as int) >= known_upto(
            rows(old(known)@),
            all@.len() as int,
        ) + if r {
            1nat
        } else {
            0
        },
        !r ==> rows(final(known)@) == rows(old(known)@),
{
    let ghost s = stories(all@);
    let ghost first = rows(known@);
    let ghost n = all@.len() as int;
    let mut moved: bool = false;
    while known[w].len() < all[w].blocks.len()
        invariant
            w < all@.len() == n,
            s == stories(all@),
            first == rows(old(known)@),
            within_blocks(s, rows(known@)),
            advanced(s, first, w as int) == advanced(s, rows(known@), w as int),
            known_upto(rows(known@), n) >= known_upto(first, n) + if moved {
                1nat
            } else {
                0
            },
            !moved ==> rows(known@) == first,
        decreases all@[w as int].blocks@.len() - known@[w as int]@.len(),
    {
        let i: usize = known[w].len();
        let what: What = all[w].blocks[i].what;
        let ghost before = rows(known@);
        match find_what_level(all, known, what) {
            Some(level) => {
                known[w].push(level);
                moved = true;
                proof {
                    assert(rows(known@) =~= before.update(w as int, before[w as int].push(level)));
                    lemma_one_more(before, w as int, level, n);
                }
            },
            None => {
                return moved;
            },
        }
    }
    moved
}

/// Gives each writer its turn; says whether anything became known.
fn take_turns(all: &Vec<Writer>, known: &mut Vec<Vec<Level>>) -> (r: bool)
    requires
        within_blocks(stories(all@), rows(old(known)@)),
    ensures
        within_blocks(stories(all@), rows(final(known)@)),
        rows(final(known)@) == after_turns(stories(all@), rows(old(known)@), 0),
        known_upto(rows(final(known)@), all@.len() as int) >= known_upto(
            rows(old(known)@),
            all@.len() as int,
        ) + if r {
            1nat
        } else {
            0
        },
        !r ==> rows(final(known)@) == rows(old(known)@),
{
    let ghost s = stories(all@);
    let ghost first = rows(known@);
    let ghost n = all@.len() as int;
    let mut moved: bool = false;
    let mut w: usize = 0;
    while w < all.len()
        invariant
            w <= all@.len() == n,
            s == stories(all@),
            first == rows(old(known)@),
            within_blocks(s, rows(known@)),
            after_turns(s, first, 0) == after_turns(s, rows(known@), w as int),
            known_upto(rows(known@), n) >= known_upto(first, n) + if moved {
                1nat
            } else {
                0
            },
            !moved ==> rows(known@) == first,
        decreases all@.len() - w,
    {
        let now: bool = advance(all, known, w);
        moved = moved || now;
        w += 1;
    }
    moved
}

fn find_levels(all: &Vec<Writer>) -> (r: Vec<Vec<Level>>)
    ensures
        rows(r@) == levels_of(stories(all@)),
        within_blocks(stories(all@), rows(r@)),
{
    let ghost s = stories(all@);
    let ghost n = all@.len() as int;
    let mut known: Vec<Vec<Level>> = Vec::new();
    let mut w: usize = 0;
    while w < all.len()
        invariant
            w <= all@.len(),
            known@.len() == w,
            forall|v: int| 0 <= v < w ==> (#[trigger] known@[v])@.len() == 0,
        decreases all@.len() - w,
    {
        known.push(Vec::new());
        w += 1;
    }
    let ghost none = Seq::new(s.len(), |w: int| Seq::<Level>::empty());
    let ghost size = size_of(s, n);
    let ghost mut done: int = 0;
    proof {
        assert forall|v: int| 0 <= v < none.len() implies rows(known@)[v] =~= none[v] by {
            assert(known@[v]@.len() == 0);
        }
        assert(rows(known@) =~= none);
        lemma_known_in_size(s, rows(known@), n);
    }
    loop
        invariant
            s == stories(all@),
            n == s.len(),
            size == size_of(s, n),
            none == Seq::new(s.len(), |w: int| Seq::<Level>::empty()),
            within_blocks(s, rows(known@)),
            0 <= done <= known_upto(rows(known@), n) <= size,
            after_rounds(s, none, size) == after_rounds(s, rows(known@), (size - done) as nat),
        ensures
            rows(known@) == after_rounds(s, none, size),
            within_blocks(s, rows(known@)),
        decreases size - known_upto(rows(known@), n),
    {
        let ghost before = rows(known@);
        let moved: bool = take_turns(all, &mut known);
        proof {
            lemma_known_in_size(s, rows(known@), n);
        }
        if !moved {
            proof {
                lemma_rounds_rest(s, before, (size - done) as nat);
            }
            break;
        }
        proof {
            done = done + 1;
        }
    }
    known
}

/// A state that was read: every writer's story, and the levels of its
/// blocks.
#[derive(Debug)]
pub struct State {
    pub writers: Vec<Writer>,
    pub levels: Vec<Vec<Level>>,
}

impl State {
    /// Whether this is what some bytes hold.
    pub open spec fn shows(&self, b: Seq<u8>) -> bool {
        &&& readable(b)
        &&& stories_in(b) == Some(stories(self.writers@))
        &&& rows(self.levels@) == levels_of(stories(self.writers@))
        &&& self.levels@.len() == self.writers@.len()
    }
}

/// Reads the whole state of a board.
pub fn read_state(b: &[u8]) -> (r: Option<State>)
    ensures
        match r {
            Some(state) => state.shows(b@),
            None => !readable(b@),
        },
{
    let writers: Vec<Writer> = match read_stories(b) {
        Some(writers) => writers,
        None => {
            return None;
        },
    };
    let levels: Vec<Vec<Level>> = find_levels(&writers);
    let ghost s = stories(writers@);
    let mut w: usize = 0;
    while w < writers.len()
        invariant
            w <= writers@.len() == levels@.len(),
            s == stories(writers@),
            rows(levels@) == levels_of(s),
            forall|v: int| 0 <= v < w ==> (#[trigger] rows(levels@)[v]).len() == s[v].blocks.len(),
            stories_in(b@) == Some(s),
        decreases writers@.len() - w,
    {
        if levels[w].len() != writers[w].blocks.len() {
            proof {
                assert(rows(levels@)[w as int].len() != s[w as int].blocks.len());
            }
            return None;
        }
        w += 1;
    }
    Some(State { writers, levels })
}

/// Whether bytes are the whole state of a board.
pub fn is_readable(b: &[u8]) -> (r: bool)
    ensures
        r == readable(b@),
{
    read_state(b).is_some()
}

fn are_alike(x: Level, y: Level) -> (r: bool)
    ensures
        r == alike(x, y),
{
    x == Level::Gone || y == Level::Gone || x == y
}

/// Whether two writers' stories agree, blocks and levels given.
spec fn stories_agree(
    x: Seq<Block>,
    xl: Seq<Level>,
    y: Seq<Block>,
    yl: Seq<Level>,
    upto: int,
) -> bool {
    forall|i: int, j: int|
        0 <= i < upto && 0 <= j < y.len() && overlap(#[trigger] x[i], #[trigger] y[j]) ==> alike(
            xl[i],
            yl[j],
        )
}

fn check_stories(x: &Vec<Block>, xl: &Vec<Level>, y: &Vec<Block>, yl: &Vec<Level>) -> (r: bool)
    requires
        xl@.len() == x@.len(),
        yl@.len() == y@.len(),
    ensures
        r == stories_agree(x@, xl@, y@, yl@, x@.len() as int),
{
    let mut i: usize = 0;
    while i < x.len()
        invariant
            i <= x@.len() == xl@.len(),
            yl@.len() == y@.len(),
            stories_agree(x@, xl@, y@, yl@, i as int),
        decreases x@.len() - i,
    {
        let mut j: usize = 0;
        while j < y.len()
            invariant
                i < x@.len() == xl@.len(),
                j <= y@.len() == yl@.len(),
                forall|k: int|
                    0 <= k < j && overlap(x@[i as int], #[trigger] y@[k]) ==> alike(
                        xl@[i as int],
                        yl@[k],
                    ),
            decreases y@.len() - j,
        {
            if x[i].start < y[j].end && y[j].start < x[i].end && !are_alike(xl[i], yl[j]) {
                proof {
                    assert(overlap(x@[i as int], y@[j as int]));
                }
                return false;
            }
            j += 1;
        }
        i += 1;
    }
    true
}

impl State {
    /// Whether two states agree on what the writers did that both know of.
    fn agrees(
        &self,
        more: &State,
        Ghost(own): Ghost<Seq<u8>>,
        Ghost(b): Ghost<Seq<u8>>,
    ) -> (r: bool)
        requires
            self.shows(own),
            more.shows(b),
        ensures
            r == agree(stories(self.writers@), stories(more.writers@)),
    {
        let ghost s = stories(self.writers@);
        let ghost t = stories(more.writers@);
        let ghost sl = levels_of(s);
        let ghost tl = levels_of(t);
        let mut v: usize = 0;
        while v < self.writers.len()
            invariant
                v <= self.writers@.len(),
                self.shows(own),
                more.shows(b),
                s == stories(self.writers@),
                t == stories(more.writers@),
                sl == levels_of(s),
                sl == rows(self.levels@),
                tl == levels_of(t),
                tl == rows(more.levels@),
                forall|x: int, y: int|
                    0 <= x < v && 0 <= y < t.len() && (#[trigger] s[x]).client == (
                    #[trigger] t[y]).client ==> stories_agree(
                        s[x].blocks,
                        sl[x],
                        t[y].blocks,
                        tl[y],
                        s[x].blocks.len() as int,
                    ),
            decreases self.writers@.len() - v,
        {
            let mut w: usize = 0;
            while w < more.writers.len()
                invariant
                    v < self.writers@.len(),
                    w <= more.writers@.len(),
                    self.shows(own),
                    more.shows(b),
                    s == stories(self.writers@),
                    t == stories(more.writers@),
                    sl == levels_of(s),
                sl == rows(self.levels@),
                    tl == levels_of(t),
                tl == rows(more.levels@),
                    forall|y: int|
                        0 <= y < w && s[v as int].client == (#[trigger] t[y]).client
                            ==> stories_agree(
                            s[v as int].blocks,
                            sl[v as int],
                            t[y].blocks,
                            tl[y],
                            s[v as int].blocks.len() as int,
                        ),
                decreases more.writers@.len() - w,
            {
                if self.writers[v].client == more.writers[w].client {
                    proof {
                        assert(sl[v as int].len() == s[v as int].blocks.len());
                        assert(tl[w as int].len() == t[w as int].blocks.len());
                    }
                    let fine: bool = check_stories(
                        &self.writers[v].blocks,
                        &self.levels[v],
                        &more.writers[w].blocks,
                        &more.levels[w],
                    );
                    if !fine {
                        proof {
                            let (i, j) = choose|i: int, j: int|
                                0 <= i < s[v as int].blocks.len() && 0 <= j
                                    < t[w as int].blocks.len() && overlap(
                                    #[trigger] s[v as int].blocks[i],
                                    #[trigger] t[w as int].blocks[j],
                                ) && !alike(sl[v as int][i], tl[w as int][j]);
                            assert(overlap(s[v as int].blocks[i], t[w as int].blocks[j]));
                            assert(!agree(s, t));
                        }
                        return false;
                    }
                }
                w += 1;
            }
            v += 1;
        }
        proof {
            assert forall|v: int, w: int, i: int, j: int|
                0 <= v < s.len() && 0 <= w < t.len() && s[v].client == t[w].client && 0 <= i
                    < s[v].blocks.len() && 0 <= j < t[w].blocks.len() && overlap(
                    #[trigger] s[v].blocks[i],
                    #[trigger] t[w].blocks[j],
                ) implies alike(sl[v][i], tl[w][j]) by {
                assert(stories_agree(
                    s[v].blocks,
                    sl[v],
                    t[w].blocks,
                    tl[w],
                    s[v].blocks.len() as int,
                ));
            }
        }
        true
    }
}

/// Whether bytes can be merged into a document with a state, given the
/// document's own id and clock.
pub fn can_merge(own: &[u8], client: u64, clock: u64, b: &[u8]) -> (r: bool)
    ensures
        r == mergeable(own@, client, clock as nat, b@),
{
    let (have, more) = match (read_state(own), read_state(b)) {
        (Some(have), Some(more)) => (have, more),
        _ => {
            return false;
        },
    };
    let mut w: usize = 0;
    while w < more.writers.len()
        invariant
            w <= more.writers@.len(),
            have.shows(own@),
            more.shows(b@),
            forall|k: int|
                0 <= k < w && (#[trigger] stories(more.writers@)[k]).client == client
                    ==> stories(more.writers@)[k].end <= clock,
        decreases more.writers@.len() - w,
    {
        if more.writers[w].client == client && more.writers[w].end > clock {
            proof {
                assert(stories(more.writers@)[w as int].end > clock);
            }
            return false;
        }
        w += 1;
    }
    have.agrees(&more, Ghost(own@), Ghost(b@))
}

} // verus!
