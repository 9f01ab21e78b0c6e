//! The orders in which the files of a torrent can be listed.

use crate::error::Error;
use crate::error::Malformed;
use crate::file_path::views;
use crate::files::total_length;
use crate::files::FileEntry;
use crate::files::FileEntryView;
use crate::lex::lemma_path_lt_irreflexive;
use crate::lex::lemma_path_lt_transitive;
use crate::lex::path_lt;
use crate::lex::Rank;
use crate::text::is_name;
use crate::text::same_ignoring_case;
use vstd::prelude::*;

verus! {

/// An order of the files of a torrent.
#[derive(Clone, Copy, Debug, PartialEq, Eq, Structural)]
pub enum FileOrder {
    /// By path, ascending.
    AlphabeticalAsc,
    /// By path, descending.
    AlphabeticalDesc,
    /// By length, ascending; files of one length by path, ascending.
    SizeAsc,
    /// By length, descending; files of one length by path, ascending.
    SizeDesc,
}

/// No two entries of `entries` have the same path.
pub open spec fn distinct_paths(entries: Seq<FileEntryView>) -> bool {
    forall|i: int, j: int|
        0 <= i < j < entries.len() ==> (#[trigger] entries[i]).path != (#[trigger] entries[j]).path
}

/// Each entry of `entries` comes before every later one.
pub open spec fn sorted(order: FileOrder, entries: Seq<FileEntryView>) -> bool {
    forall|i: int, j: int|
        0 <= i < j < entries.len() ==> order.before(#[trigger] entries[i], #[trigger] entries[j])
}

/// `origin` says where in `input` each item of `output` comes from, and
/// `place` where in `output` each item of `input` has gone.
pub open spec fn rearranged<T>(
    output: Seq<T>,
    input: Seq<T>,
    origin: Seq<int>,
    place: Seq<int>,
) -> bool {
    &&& output.len() == input.len()
    &&& origin.len() == input.len()
    &&& place.len() == input.len()
    &&& forall|k: int|
        0 <= k < output.len() ==> 0 <= #[trigger] origin[k] < input.len() && output[k]
            == input[origin[k]] && place[origin[k]] == k
    &&& forall|j: int|
        0 <= j < input.len() ==> 0 <= #[trigger] place[j] < output.len() && origin[place[j]] == j
}

/// `output` holds the items of `input`, each as often, in some order.
pub open spec fn is_permutation<T>(output: Seq<T>, input: Seq<T>) -> bool {
    exists|origin: Seq<int>, place: Seq<int>| rearranged(output, input, origin, place)
}

impl FileOrder {
    /// The name of the order.
    pub open spec fn spec_name(self) -> Seq<char> {
        match self {
            FileOrder::AlphabeticalAsc => "alphabetical-asc"@,
            FileOrder::AlphabeticalDesc => "alphabetical-desc"@,
            FileOrder::SizeAsc => "size-asc"@,
            FileOrder::SizeDesc => "size-desc"@,
        }
    }

    /// The order that `text` names, whatever the case of its letters.
    pub open spec fn named(text: Seq<char>) -> Option<FileOrder> {
        if same_ignoring_case(text, FileOrder::AlphabeticalAsc.spec_name()) {
            Some(FileOrder::AlphabeticalAsc)
        } else if same_ignoring_case(text, FileOrder::AlphabeticalDesc.spec_name()) {
            Some(FileOrder::AlphabeticalDesc)
        } else if same_ignoring_case(text, FileOrder::SizeAsc.spec_name()) {
            Some(FileOrder::SizeAsc)
        } else if same_ignoring_case(text, FileOrder::SizeDesc.spec_name()) {
            Some(FileOrder::SizeDesc)
        } else {
            None
        }
    }

    /// `a` comes strictly before `b`.
    pub open spec fn before(self, a: FileEntryView, b: FileEntryView) -> bool {
        match self {
            FileOrder::AlphabeticalAsc => path_lt(a.path, b.path),
            FileOrder::AlphabeticalDesc => path_lt(b.path, a.path),
            FileOrder::SizeAsc => a.length < b.length || (a.length == b.length && path_lt(
                a.path,
                b.path,
            )),
            FileOrder::SizeDesc => a.length > b.length || (a.length == b.length && path_lt(
                a.path,
                b.path,
            )),
        }
    }

    /// The order goes by path alone.
    pub open spec fn alphabetical(self) -> bool {
        self == FileOrder::AlphabeticalAsc || self == FileOrder::AlphabeticalDesc
    }

    /// The order is transitive.
    pub proof fn lemma_before_transitive(self, a: FileEntryView, b: FileEntryView, c: FileEntryView)
        requires
            self.before(a, b),
            self.before(b, c),
        ensures
            self.before(a, c),
    {
        match self {
            FileOrder::AlphabeticalAsc => {
                lemma_path_lt_transitive(a.path, b.path, c.path);
            },
            FileOrder::AlphabeticalDesc => {
                lemma_path_lt_transitive(c.path, b.path, a.path);
            },
            FileOrder::SizeAsc => {
                if a.length == b.length && b.length == c.length {
                    lemma_path_lt_transitive(a.path, b.path, c.path);
                }
            },
            FileOrder::SizeDesc => {
                if a.length == b.length && b.length == c.length {
                    lemma_path_lt_transitive(a.path, b.path, c.path);
                }
            },
        }
    }

    /// No entry comes before one with the same path and length, and in an
    /// order by path none comes before one with the same path.
    pub proof fn lemma_before_irreflexive(self, a: FileEntryView, b: FileEntryView)
        requires
            a.path == b.path,
            self.alphabetical() || a.length == b.length,
        ensures
            !self.before(a, b),
    {
        lemma_path_lt_irreflexive(a.path);
    }

    /// The name of the order.
    pub fn name(self) -> (name: &'static str)
        ensures
            name@ == self.spec_name(),
    {
        match self {
            FileOrder::AlphabeticalAsc => "alphabetical-asc",
            FileOrder::AlphabeticalDesc => "alphabetical-desc",
            FileOrder::SizeAsc => "size-asc",
            FileOrder::SizeDesc => "size-desc",
        }
    }

    /// The order that `text` names, whatever the case of its letters.
    pub fn parse(text: &str) -> (r: Result<FileOrder, Error>)
        ensures
            r == (match FileOrder::named(text@) {
                Some(order) => Ok::<FileOrder, Error>(order),
                None => Err(Error::CliParse { what: Malformed::FileOrder }),
            }),
    {
        if is_name(text, "alphabetical-asc") {
            Ok(FileOrder::AlphabeticalAsc)
        } else if is_name(text, "alphabetical-desc") {
            Ok(FileOrder::AlphabeticalDesc)
        } else if is_name(text, "size-asc") {
            Ok(FileOrder::SizeAsc)
        } else if is_name(text, "size-desc") {
            Ok(FileOrder::SizeDesc)
        } else {
            Err(Error::CliParse { what: Malformed::FileOrder })
        }
    }

    /// How `a` stands to `b`. They stand equal only where they have the same
    /// path and, in an order by length, the same length.
    pub fn rank(self, a: &FileEntry, b: &FileEntry) -> (r: Rank)
        ensures
            r == Rank::Less <==> self.before(a@, b@),
            r == Rank::Greater <==> self.before(b@, a@),
            r == Rank::Equal <==> a@.path == b@.path && (self.alphabetical() || a@.length
                == b@.length),
    {
        let by_path = a.path.compare(&b.path);
        proof {
            lemma_path_lt_irreflexive(a@.path);
            if path_lt(a@.path, b@.path) {
                crate::lex::lemma_path_lt_asymmetric(a@.path, b@.path);
            }
        }
        match self {
            FileOrder::AlphabeticalAsc => by_path,
            FileOrder::AlphabeticalDesc => match by_path {
                Rank::Less => Rank::Greater,
                Rank::Equal => Rank::Equal,
                Rank::Greater => Rank::Less,
            },
            FileOrder::SizeAsc => {
                if a.length.0 < b.length.0 {
                    Rank::Less
                } else if a.length.0 > b.length.0 {
                    Rank::Greater
                } else {
                    by_path
                }
            },
            FileOrder::SizeDesc => {
                if a.length.0 > b.length.0 {
                    Rank::Less
                } else if a.length.0 < b.length.0 {
                    Rank::Greater
                } else {
                    by_path
                }
            },
        }
    }
}

/// The views of a sequence with an item put in are the views of the
/// sequence with the view of that item put in.
pub proof fn lemma_views_insert<T: View>(items: Seq<T>, at: int, item: T)
    requires
        0 <= at <= items.len(),
    ensures
        views(items.insert(at, item)) == views(items).insert(at, item@),
{
    assert(views(items.insert(at, item)) =~= views(items).insert(at, item@));
}

/// Putting an entry in adds its length to the total.
pub proof fn lemma_total_length_insert(entries: Seq<FileEntryView>, at: int, entry: FileEntryView)
    requires
        0 <= at <= entries.len(),
    ensures
        total_length(entries.insert(at, entry)) == total_length(entries) + entry.length,
    decreases entries.len() - at,
{
    let put = entries.insert(at, entry);
    if at == entries.len() {
        assert(put.drop_last() =~= entries);
    } else {
        assert(put.drop_last() =~= entries.drop_last().insert(at, entry));
        lemma_total_length_insert(entries.drop_last(), at, entry);
    }
}

/// Entries that are a rearrangement of entries with distinct paths have
/// distinct paths.
pub proof fn lemma_rearranged_distinct(
    output: Seq<FileEntryView>,
    input: Seq<FileEntryView>,
    origin: Seq<int>,
    place: Seq<int>,
)
    requires
        rearranged(output, input, origin, place),
        distinct_paths(input),
    ensures
        distinct_paths(output),
{
    assert forall|a: int, b: int| 0 <= a < b < output.len() implies (#[trigger] output[a]).path != (
    #[trigger] output[b]).path by {
        let i = origin[a];
        let j = origin[b];
        assert(place[i] == a && place[j] == b);
        if i < j {
            assert(input[i].path != input[j].path);
        } else {
            assert(input[j].path != input[i].path);
        }
    }
}

/// Entries of which a rearrangement is sorted by path have distinct paths.
pub proof fn lemma_sorted_distinct(
    order: FileOrder,
    output: Seq<FileEntryView>,
    input: Seq<FileEntryView>,
    origin: Seq<int>,
    place: Seq<int>,
)
    requires
        order.alphabetical(),
        sorted(order, output),
        rearranged(output, input, origin, place),
    ensures
        distinct_paths(input),
{
    assert forall|i: int, j: int| 0 <= i < j < input.len() implies (#[trigger] input[i]).path != (
    #[trigger] input[j]).path by {
        let a = place[i];
        let b = place[j];
        assert(origin[a] == i && origin[b] == j);
        assert(output[a] == input[i] && output[b] == input[j]);
        if input[i].path == input[j].path {
            if a < b {
                assert(order.before(output[a], output[b]));
                order.lemma_before_irreflexive(output[a], output[b]);
            } else {
                assert(order.before(output[b], output[a]));
                order.lemma_before_irreflexive(output[b], output[a]);
            }
        }
    }
}

/// Copies of `entries` in the order `order`, or `PathComponent` where two
/// entries that the order cannot tell apart were met.
fn arrange(entries: &Vec<FileEntry>, order: FileOrder) -> (r: Result<Vec<FileEntry>, Error>)
    ensures
        r matches Ok(out) ==> {
            &&& sorted(order, views(out@))
            &&& is_permutation(views(out@), views(entries@))
            &&& total_length(views(out@)) == total_length(views(entries@))
        },
        r matches Err(e) ==> e == Error::PathComponent && !distinct_paths(views(entries@)),
{
    let ghost input = views(entries@);
    let mut out: Vec<FileEntry> = Vec::new();
    let ghost mut origin: Seq<int> = Seq::empty();
    let ghost mut place: Seq<int> = Seq::empty();
    let mut i: usize = 0;
    assert(input.take(0) =~= Seq::<FileEntryView>::empty());
    while i < entries.len()
        invariant
            i <= entries.len(),
            input == views(entries@),
            out.len() == i,
            sorted(order, views(out@)),
            rearranged(views(out@), input.take(i as int), origin, place),
            total_length(views(out@)) == total_length(input.take(i as int)),
        decreases entries.len() - i,
    {
        let entry = FileEntry { path: entries[i].path.duplicate(), length: entries[i].length };
        assert(entry@ == input[i as int]);
        let ghost sorted_before = views(out@);
        let mut at: usize = out.len();
        let mut searching = true;
        while searching && at > 0
            invariant
                at <= out.len(),
                out.len() == i,
                i < entries.len(),
                input == views(entries@),
                entry@ == input[i as int],
                sorted_before == views(out@),
                rearranged(sorted_before, input.take(i as int), origin, place),
                forall|k: int| at <= k < out.len() ==> order.before(entry@, #[trigger] sorted_before[k]),
                !searching ==> at > 0 && order.before(sorted_before[at - 1], entry@),
            decreases at + (if searching { 1int } else { 0int }),
        {
            match order.rank(&entry, &out[at - 1]) {
                Rank::Less => {
                    at = at - 1;
                },
                Rank::Equal => {
                    proof {
                        let j = origin[at - 1];
                        assert(sorted_before[at - 1] == input.take(i as int)[j]);
                        assert(input[j].path == input[i as int].path);
                    }
                    return Err(Error::PathComponent);
                },
                Rank::Greater => {
                    searching = false;
                },
            }
        }
        proof {
            lemma_views_insert(out@, at as int, entry);
            lemma_total_length_insert(sorted_before, at as int, entry@);
            assert(input.take(i + 1).drop_last() =~= input.take(i as int));
            let put = sorted_before.insert(at as int, entry@);
            assert forall|a: int, b: int| 0 <= a < b < put.len() implies order.before(
                #[trigger] put[a],
                #[trigger] put[b],
            ) by {
                if b < at {
                    assert(put[a] == sorted_before[a] && put[b] == sorted_before[b]);
                } else if b == at {
                    assert(put[a] == sorted_before[a]);
                    if a < at - 1 {
                        order.lemma_before_transitive(
                            sorted_before[a],
                            sorted_before[at - 1],
                            entry@,
                        );
                    }
                } else if a < at {
                    assert(put[a] == sorted_before[a] && put[b] == sorted_before[b - 1]);
                } else if a == at {
                    assert(put[b] == sorted_before[b - 1]);
                } else {
                    assert(put[a] == sorted_before[a - 1] && put[b] == sorted_before[b - 1]);
                }
            }
            let old_place = place;
            let old_origin = origin;
            let here = at as int;
            origin = old_origin.insert(here, i as int);
            place = Seq::new(
                (i + 1) as nat,
                |j: int|
                    if j == i {
                        here
                    } else if old_place[j] >= here {
                        old_place[j] + 1
                    } else {
                        old_place[j]
                    },
            );
            let next = input.take(i + 1);
            assert forall|k: int| 0 <= k < put.len() implies 0 <= #[trigger] origin[k] < next.len()
                && put[k] == next[origin[k]] && place[origin[k]] == k by {
                if k < here {
                    assert(origin[k] == old_origin[k]);
                    assert(put[k] == sorted_before[k]);
                } else if k > here {
                    assert(origin[k] == old_origin[k - 1]);
                    assert(put[k] == sorted_before[k - 1]);
                }
            }
            assert forall|j: int| 0 <= j < next.len() implies 0 <= #[trigger] place[j] < put.len()
                && origin[place[j]] == j by {
                if j < i {
                    let p = old_place[j];
                    assert(old_origin[p] == j);
                }
            }
            assert(rearranged(put, next, origin, place));
        }
        out.insert(at, entry);
        i += 1;
    }
    assert(input.take(entries.len() as int) =~= input);
    Ok(out)
}

/// Copies of `entries` in the order `order`, unless two of them have the
/// same path.
pub fn sort(entries: &Vec<FileEntry>, order: FileOrder) -> (r: Result<Vec<FileEntry>, Error>)
    ensures
        r is Ok <==> distinct_paths(views(entries@)),
        r matches Ok(out) ==> {
            &&& sorted(order, views(out@))
            &&& is_permutation(views(out@), views(entries@))
            &&& distinct_paths(views(out@))
            &&& total_length(views(out@)) == total_length(views(entries@))
        },
        r matches Err(e) ==> e == Error::PathComponent,
{
    let by_path = match order {
        FileOrder::AlphabeticalAsc => true,
        FileOrder::AlphabeticalDesc => true,
        _ => false,
    };
    if !by_path {
        match arrange(entries, FileOrder::AlphabeticalAsc) {
            Ok(checked) => {
                proof {
                    let (origin, place) = choose|origin: Seq<int>, place: Seq<int>|
                        rearranged(views(checked@), views(entries@), origin, place);
                    lemma_sorted_distinct(
                        FileOrder::AlphabeticalAsc,
                        views(checked@),
                        views(entries@),
                        origin,
                        place,
                    );
                }
            },
            Err(e) => {
                return Err(e);
            },
        }
    }
    match arrange(entries, order) {
        Ok(out) => {
            proof {
                let (origin, place) = choose|origin: Seq<int>, place: Seq<int>|
                    rearranged(views(out@), views(entries@), origin, place);
                if by_path {
                    lemma_sorted_distinct(order, views(out@), views(entries@), origin, place);
                }
                lemma_rearranged_distinct(views(out@), views(entries@), origin, place);
            }
            Ok(out)
        },
        Err(e) => Err(e),
    }
}

} // verus!
