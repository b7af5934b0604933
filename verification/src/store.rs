//! The file store: one memory record on each line of a file.

use vstd::prelude::*;
use vstd::string::*;

use crate::record;
use crate::record::{MemoryRecord, RecordView};
use crate::text;
use crate::text::{text_eq, text_lines, trim};

verus! {

/// A store that keeps its records in a file.
#[derive(Debug)]
pub struct FileMemoryStore {
    path: String,
}

impl FileMemoryStore {
    /// The path of the file.
    pub closed spec fn location(self) -> Seq<char> {
        self.path@
    }

    pub fn new(path: &str) -> (r: Self)
        ensures
            r.location() == path@,
    {
        FileMemoryStore { path: path.to_owned() }
    }

    pub fn path(&self) -> (r: &str)
        ensures
            r@ == self.location(),
    {
        self.path.as_str()
    }
}

/// Whether one of the records goes by an id.
pub open spec fn has_id(records: Seq<RecordView>, id: Seq<char>) -> bool {
    exists|i: int| 0 <= i < records.len() && (#[trigger] records[i]).id == id
}

/// The stored records without those whose id one of the new records has,
/// followed by the new records.
pub open spec fn upserted(stored: Seq<RecordView>, added: Seq<RecordView>) -> Seq<RecordView> {
    stored.filter(|r: RecordView| !has_id(added, r.id)) + added
}

/// Whether one of the records goes by an id.
pub fn holds_id(records: &Vec<MemoryRecord>, id: &str) -> (r: bool)
    ensures
        r == has_id(record::record_views(records@), id@),
{
    let mut i: usize = 0;
    while i < records.len()
        invariant
            i <= records@.len(),
            forall|k: int|
                0 <= k < i ==> (#[trigger] record::record_views(records@)[k]).id != id@,
        decreases records@.len() - i,
    {
        assert(record::record_views(records@)[i as int] == records@[i as int]@);
        if text_eq(records[i].id.as_str(), id) {
            return true;
        }
        i += 1;
    }
    false
}

/// The records to store once new records are added.
pub fn add_records(stored: &Vec<MemoryRecord>, added: &Vec<MemoryRecord>) -> (r: Vec<MemoryRecord>)
    ensures
        record::record_views(r@) == upserted(
            record::record_views(stored@),
            record::record_views(added@),
        ),
{
    let ghost all = record::record_views(stored@);
    let ghost new = record::record_views(added@);
    let ghost keep = |x: RecordView| !has_id(new, x.id);
    let mut r: Vec<MemoryRecord> = Vec::new();
    assert(record::record_views(r@) =~= all.take(0).filter(keep)) by {
        reveal(Seq::filter);
    }
    let mut i: usize = 0;
    while i < stored.len()
        invariant
            i <= stored@.len(),
            all == record::record_views(stored@),
            new == record::record_views(added@),
            keep == (|x: RecordView| !has_id(new, x.id)),
            record::record_views(r@) == all.take(i as int).filter(keep),
        decreases stored@.len() - i,
    {
        let ghost before = record::record_views(r@);
        assert(all.take(i + 1).drop_last() =~= all.take(i as int));
        assert(all.take(i + 1).last() == stored@[i as int]@);
        proof {
            reveal(Seq::filter);
        }
        if !holds_id(added, stored[i].id.as_str()) {
            let x = stored[i].clone();
            r.push(x);
            assert(record::record_views(r@) =~= before.push(stored@[i as int]@));
        }
        i += 1;
    }
    assert(all.take(i as int) =~= all);
    let ghost kept = record::record_views(r@);
    assert(kept + new.take(0) =~= kept);
    let mut j: usize = 0;
    while j < added.len()
        invariant
            j <= added@.len(),
            new == record::record_views(added@),
            record::record_views(r@) == kept + new.take(j as int),
        decreases added@.len() - j,
    {
        let ghost before = record::record_views(r@);
        let x = added[j].clone();
        r.push(x);
        assert(record::record_views(r@) =~= before.push(added@[j as int]@));
        assert(before.push(added@[j as int]@) =~= kept + new.take(j + 1));
        j += 1;
    }
    assert(new.take(j as int) =~= new);
    r
}

/// The records to store once one new record is added.
pub fn add_record(stored: &Vec<MemoryRecord>, added: &MemoryRecord) -> (r: Vec<MemoryRecord>)
    ensures
        record::record_views(r@) == upserted(record::record_views(stored@), seq![added@]),
{
    let mut one: Vec<MemoryRecord> = Vec::new();
    let x = added.clone();
    one.push(x);
    assert(record::record_views(one@) =~= seq![added@]);
    add_records(stored, &one)
}

/// Adding records stores each of them, drops the stored records that go by
/// their ids, and leaves every other record as it was.
pub proof fn adding_replaces_by_id(
    stored: Seq<RecordView>,
    added: Seq<RecordView>,
    x: RecordView,
)
    ensures
        upserted(stored, added).contains(x) <==> added.contains(x) || (stored.contains(x)
            && !has_id(added, x.id)),
{
    let keep = |r: RecordView| !has_id(added, r.id);
    let kept = stored.filter(keep);
    let all = upserted(stored, added);
    if all.contains(x) {
        let i = choose|i: int| 0 <= i < all.len() && all[i] == x;
        if i < kept.len() {
            stored.lemma_filter_pred(keep, i);
            assert(kept.contains(x));
            stored.lemma_filter_contains_rev(keep, x);
        } else {
            assert(added[i - kept.len()] == x);
        }
    }
    if added.contains(x) {
        let i = choose|i: int| 0 <= i < added.len() && added[i] == x;
        assert(all[kept.len() + i] == x);
    }
    if stored.contains(x) && keep(x) {
        broadcast use vstd::seq_lib::group_filter_ensures;

        let i = choose|i: int| 0 <= i < stored.len() && stored[i] == x;
        assert(keep(stored[i]));
        assert(kept.contains(x));
        let k = choose|k: int| 0 <= k < kept.len() && kept[k] == x;
        assert(all[k] == x);
    }
}

/// The lines of a file that are not blank.
pub open spec fn filled_lines(content: Seq<char>) -> Seq<Seq<char>> {
    text::lines_of(content).filter(|line: Seq<char>| !text::is_blank(line))
}

/// The lines of a file that hold a record.
pub fn record_lines(content: &str) -> (r: Vec<String>)
    ensures
        text::strings(r@) == filled_lines(content@),
{
    let lines = text_lines(content);
    let ghost all = text::strings(lines@);
    let ghost keep = |line: Seq<char>| !text::is_blank(line);
    let mut r: Vec<String> = Vec::new();
    assert(text::strings(r@) =~= all.take(0).filter(keep)) by {
        reveal(Seq::filter);
    }
    let mut i: usize = 0;
    while i < lines.len()
        invariant
            i <= lines@.len(),
            all == text::strings(lines@),
            keep == (|line: Seq<char>| !text::is_blank(line)),
            text::strings(r@) == all.take(i as int).filter(keep),
        decreases lines@.len() - i,
    {
        let ghost before = r@;
        assert(all.take(i + 1).drop_last() =~= all.take(i as int));
        assert(all.take(i + 1).last() == lines@[i as int]@);
        proof {
            reveal(Seq::filter);
        }
        if !trim(lines[i].as_str()).is_empty() {
            let line = lines[i].clone();
            r.push(line);
            proof {
                text::lemma_strings_push(before, line);
            }
        }
        i += 1;
    }
    assert(all.take(i as int) =~= all);
    r
}

/// The content of a file with the given lines, each ended by a line feed.
pub open spec fn file_content(lines: Seq<Seq<char>>) -> Seq<char>
    decreases lines.len(),
{
    if lines.len() == 0 {
        Seq::empty()
    } else {
        (file_content(lines.drop_last()) + lines.last()).push('\n')
    }
}

/// The content of a file with the given lines.
pub fn lines_content(lines: &Vec<String>) -> (r: String)
    ensures
        r@ == file_content(text::strings(lines@)),
{
    let ghost all = text::strings(lines@);
    let mut r = String::new();
    assert(all.take(0) =~= Seq::empty());
    let mut i: usize = 0;
    while i < lines.len()
        invariant
            i <= lines@.len(),
            all == text::strings(lines@),
            r@ == file_content(all.take(i as int)),
        decreases lines@.len() - i,
    {
        assert(all.take(i + 1).drop_last() =~= all.take(i as int));
        assert(all.take(i + 1).last() == lines@[i as int]@);
        r.append(lines[i].as_str());
        r.push('\n');
        i += 1;
    }
    assert(all.take(i as int) =~= all);
    r
}

proof fn lemma_split_on_append(s: Seq<char>, t: Seq<char>, c: char)
    requires
        forall|k: int| 0 <= k < t.len() ==> #[trigger] t[k] != c,
    ensures
        text::split_on(s + t, c) == text::split_on(s, c).drop_last().push(
            text::split_on(s, c).last() + t,
        ),
    decreases t.len(),
{
    text::lemma_split_on_len(s, c);
    if t.len() == 0 {
        assert(s + t =~= s);
        assert(text::split_on(s, c).last() + t =~= text::split_on(s, c).last());
        assert(text::split_on(s, c).drop_last().push(text::split_on(s, c).last())
            =~= text::split_on(s, c));
    } else {
        let u = t.drop_last();
        assert forall|k: int| 0 <= k < u.len() implies #[trigger] u[k] != c by {
            assert(u[k] == t[k]);
        }
        lemma_split_on_append(s, u, c);
        assert((s + t).drop_last() =~= s + u);
        assert((s + t).last() == t[t.len() - 1]);
        let parts = text::split_on(s, c);
        let front = parts.drop_last().push(parts.last() + u);
        assert(front.drop_last() =~= parts.drop_last());
        assert((parts.last() + u).push(t.last()) =~= parts.last() + t);
    }
}

proof fn lemma_split_content(lines: Seq<Seq<char>>)
    requires
        forall|i: int, k: int|
            0 <= i < lines.len() && 0 <= k < lines[i].len() ==> #[trigger] lines[i][k] != '\n',
    ensures
        text::split_on(file_content(lines), '\n') == lines.push(Seq::empty()),
    decreases lines.len(),
{
    if lines.len() == 0 {
        assert(text::split_on(Seq::<char>::empty(), '\n') =~= lines.push(Seq::empty()));
    } else {
        let front = lines.drop_last();
        assert forall|i: int, k: int|
            0 <= i < front.len() && 0 <= k < front[i].len() implies #[trigger] front[i][k]
            != '\n' by {
            assert(front[i] == lines[i]);
        }
        lemma_split_content(front);
        let s = file_content(front);
        let t = lines.last();
        assert forall|k: int| 0 <= k < t.len() implies #[trigger] t[k] != '\n' by {
            assert(lines[lines.len() - 1][k] != '\n');
        }
        lemma_split_on_append(s, t, '\n');
        assert((s + t).push('\n').drop_last() =~= s + t);
        assert(front.push(Seq::empty()).drop_last() =~= front);
        assert(Seq::<char>::empty() + t =~= t);
        assert(front.push(t) =~= lines);
    }
}

/// What is written is read back: the lines of a written file are those that it
/// was written from, as long as each holds a record's text (which is not blank
/// and has no line end).
pub proof fn written_lines_are_read_back(lines: Seq<Seq<char>>)
    requires
        forall|i: int, k: int|
            0 <= i < lines.len() && 0 <= k < lines[i].len() ==> #[trigger] lines[i][k] != '\n',
        forall|i: int| 0 <= i < lines.len() ==> !text::is_blank(#[trigger] lines[i]),
        forall|i: int| 0 <= i < lines.len() ==> text::without_cr(#[trigger] lines[i]) == lines[i],
    ensures
        filled_lines(file_content(lines)) == lines,
{
    lemma_split_content(lines);
    let parts = text::split_on(file_content(lines), '\n');
    assert(parts.drop_last() =~= lines);
    assert(lines.map_values(|p: Seq<char>| text::without_cr(p)) =~= lines);
    assert(text::lines_of(file_content(lines)) =~= lines);
    lemma_filter_all(lines, |line: Seq<char>| !text::is_blank(line));
}

proof fn lemma_filter_all(s: Seq<Seq<char>>, keep: spec_fn(Seq<char>) -> bool)
    requires
        forall|i: int| 0 <= i < s.len() ==> keep(#[trigger] s[i]),
    ensures
        s.filter(keep) == s,
    decreases s.len(),
{
    reveal(Seq::filter);
    if s.len() > 0 {
        let front = s.drop_last();
        assert forall|i: int| 0 <= i < front.len() implies keep(#[trigger] front[i]) by {
            assert(front[i] == s[i]);
        }
        lemma_filter_all(front, keep);
        assert(keep(s[s.len() - 1]));
        assert(front.push(s.last()) =~= s);
    } else {
        assert(s.filter(keep) =~= s);
    }
}

} // verus!
