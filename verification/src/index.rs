//! The index store: the ordered catalog of secret metadata.
//!
//! Each entry is serialized to one line, `<3-digit id>.<app>.<desc><format>`,
//! where `format` carries its own leading separator; lines are joined with a
//! newline. Because the fields are recovered by splitting on the separator,
//! a well-formed entry never holds the separator inside `app` or `desc`, and
//! `format` holds it exactly once, at the front.

use vstd::prelude::*;
use crate::errors::VaultError;
use crate::util::{bytes_contains, contains_sub, copy_bytes, extend_bytes};

verus! {

/// The field separator of an index line.
pub const SEP: u8 = 46;

/// The line separator of the serialized index.
pub const NL: u8 = 10;

/// The mathematical value of one index entry.
#[verifier::ext_equal]
pub ghost struct EntryModel {
    pub id: u32,
    pub app: Seq<u8>,
    pub desc: Seq<u8>,
    pub format: Seq<u8>,
}

/// One entry of the index: a three-digit sequence id and the metadata of the
/// secret it names.
#[derive(Debug, PartialEq, Eq)]
pub struct IndexEntry {
    pub id: u32,
    pub app: Vec<u8>,
    pub desc: Vec<u8>,
    pub format: Vec<u8>,
}

impl View for IndexEntry {
    type V = EntryModel;

    open spec fn view(&self) -> EntryModel {
        EntryModel { id: self.id, app: self.app@, desc: self.desc@, format: self.format@ }
    }
}

/// `app` and `desc` may hold neither the field separator nor a newline.
pub open spec fn valid_field(s: Seq<u8>) -> bool {
    forall|i: int| 0 <= i < s.len() ==> s[i] != SEP && s[i] != NL
}

/// `format` starts with the separator and holds no other one, and no newline.
pub open spec fn valid_format(s: Seq<u8>) -> bool {
    &&& s.len() >= 1
    &&& s[0] == SEP
    &&& forall|i: int| 1 <= i < s.len() ==> s[i] != SEP && s[i] != NL
}

/// A well-formed entry: id in the three-digit range and separator-free
/// fields.
pub open spec fn wf_entry(m: EntryModel) -> bool {
    &&& 1 <= m.id <= 999
    &&& valid_field(m.app)
    &&& valid_field(m.desc)
    &&& valid_format(m.format)
}

/// The ASCII digit byte for `n`'s last decimal digit.
pub open spec fn digit(n: u32) -> u8 {
    (48 + n % 10) as u8
}

/// The three-digit zero-padded decimal rendering of an id.
pub open spec fn digits3(n: u32) -> Seq<u8> {
    seq![digit(n / 100), digit(n / 10), digit(n)]
}

/// The serialized line of one entry.
pub open spec fn line_of(m: EntryModel) -> Seq<u8> {
    digits3(m.id) + seq![SEP] + m.app + seq![SEP] + m.desc + m.format
}

/// The entry a line stands for, if the line is the serialization of some
/// well-formed entry.
pub open spec fn entry_of_line(line: Seq<u8>) -> Option<EntryModel> {
    if exists|m: EntryModel| wf_entry(m) && line == line_of(m) {
        Some(choose|m: EntryModel| wf_entry(m) && line == line_of(m))
    } else {
        None
    }
}

/// The shape of a well-formed entry's line: its length, the three separator
/// positions, and the bytes of each region.
pub proof fn lemma_line_shape(m: EntryModel)
    requires
        wf_entry(m),
    ensures
        line_of(m).len() == 5 + m.app.len() + m.desc.len() + m.format.len(),
        line_of(m)[3] == SEP,
        line_of(m)[4 + m.app.len() as int] == SEP,
        line_of(m)[5 + m.app.len() as int + m.desc.len() as int] == SEP,
        forall|i: int|
            0 <= i < line_of(m).len() && i != 3 && i != 4 + m.app.len() as int && i != 5
                + m.app.len() as int + m.desc.len() as int ==> line_of(m)[i] != SEP,
        forall|i: int| 0 <= i < line_of(m).len() ==> line_of(m)[i] != NL,
        line_of(m).subrange(0, 3) == digits3(m.id),
        line_of(m).subrange(4, 4 + m.app.len() as int) == m.app,
        line_of(m).subrange(
            5 + m.app.len() as int,
            5 + m.app.len() as int + m.desc.len() as int,
        ) == m.desc,
        line_of(m).subrange(
            5 + m.app.len() as int + m.desc.len() as int,
            line_of(m).len() as int,
        ) == m.format,
{
    let l = line_of(m);
    let a = m.app.len() as int;
    let d = m.desc.len() as int;
    let f = m.format.len() as int;
    assert(l.len() == 5 + a + d + f);
    assert(l[0] == digit(m.id / 100) && l[1] == digit(m.id / 10) && l[2] == digit(m.id));
    assert(l[3] == SEP);
    assert forall|i: int| 4 <= i < 4 + a implies l[i] == m.app[i - 4] by {}
    assert(l[4 + a] == SEP);
    assert forall|i: int| 5 + a <= i < 5 + a + d implies l[i] == m.desc[i - 5 - a] by {}
    assert forall|i: int| 5 + a + d <= i < l.len() implies l[i] == m.format[i - 5 - a - d] by {}
    assert(l[5 + a + d] == m.format[0]);
    assert forall|i: int| 0 <= i < l.len() && i != 3 && i != 4 + a && i != 5 + a + d implies l[i]
        != SEP by {
        if i < 3 {
            assert(l[i] == digits3(m.id)[i]);
        }
    }
    assert forall|i: int| 0 <= i < l.len() implies l[i] != NL by {
        if i < 3 {
            assert(l[i] == digits3(m.id)[i]);
        }
    }
    assert(l.subrange(0, 3) =~= digits3(m.id));
    assert(l.subrange(4, 4 + a) =~= m.app);
    assert(l.subrange(5 + a, 5 + a + d) =~= m.desc);
    assert(l.subrange(5 + a + d, l.len() as int) =~= m.format);
}

/// A three-digit number is recovered from its decimal digits.
pub proof fn lemma_id_digits(n: u32)
    requires
        n <= 999,
    ensures
        n == 100 * (n / 100) + 10 * ((n / 10) % 10) + n % 10,
        n / 100 <= 9,
        (n / 100) % 10 == n / 100,
{
    assert(n == 100 * (n / 100) + 10 * ((n / 10) % 10) + n % 10) by (nonlinear_arith)
        requires
            n <= 999,
    ;
    assert(n / 100 <= 9) by (nonlinear_arith)
        requires
            n <= 999,
    ;
}

/// The digits of a three-digit value determine it.
pub proof fn lemma_digits_value(x: u32, y: u32, z: u32)
    requires
        x <= 9,
        y <= 9,
        z <= 9,
    ensures
        (100 * x + 10 * y + z) / 100 == x,
        ((100 * x + 10 * y + z) / 10) % 10 == y,
        (100 * x + 10 * y + z) % 10 == z,
{
    let n = 100 * x + 10 * y + z;
    assert(n / 100 == x && (n / 10) % 10 == y && n % 10 == z) by (nonlinear_arith)
        requires
            x <= 9,
            y <= 9,
            z <= 9,
            n == 100 * x + 10 * y + z,
    ;
}

/// Serialization is injective on well-formed entries: one line stands for at
/// most one entry.
pub proof fn lemma_line_of_injective(m1: EntryModel, m2: EntryModel)
    requires
        wf_entry(m1),
        wf_entry(m2),
        line_of(m1) == line_of(m2),
    ensures
        m1 == m2,
{
    lemma_line_shape(m1);
    lemma_line_shape(m2);
    let a1 = m1.app.len() as int;
    let d1 = m1.desc.len() as int;
    let a2 = m2.app.len() as int;
    let d2 = m2.desc.len() as int;
    if a1 < a2 {
        assert(line_of(m1)[4 + a1] == SEP);
        assert(line_of(m2)[4 + a1] != SEP);
        assert(false);
    }
    if a2 < a1 {
        assert(line_of(m2)[4 + a2] == SEP);
        assert(line_of(m1)[4 + a2] != SEP);
        assert(false);
    }
    if d1 < d2 {
        assert(line_of(m1)[5 + a1 + d1] == SEP);
        assert(line_of(m2)[5 + a1 + d1] != SEP);
        assert(false);
    }
    if d2 < d1 {
        assert(line_of(m2)[5 + a2 + d2] == SEP);
        assert(line_of(m1)[5 + a2 + d2] != SEP);
        assert(false);
    }
    assert(m1.app == m2.app);
    assert(m1.desc == m2.desc);
    assert(m1.format == m2.format);
    assert(digits3(m1.id) == digits3(m2.id)) by {
        assert(line_of(m1).subrange(0, 3) == line_of(m2).subrange(0, 3));
    }
    assert(digits3(m1.id)[0] == digits3(m2.id)[0]);
    assert(digits3(m1.id)[1] == digits3(m2.id)[1]);
    assert(digits3(m1.id)[2] == digits3(m2.id)[2]);
    lemma_id_digits(m1.id);
    lemma_id_digits(m2.id);
    assert(m1.id / 100 == m2.id / 100);
    assert((m1.id / 10) % 10 == (m2.id / 10) % 10);
    assert(m1.id % 10 == m2.id % 10);
    assert(m1.id == m2.id);
    assert(m1 =~= m2);
}

/// Parses one serialized line back into an entry.
///
/// Succeeds exactly on the lines that the serialization of some well-formed
/// entry produces; everything else is `IndexCorrupt`.
#[verifier::rlimit(100)]
#[verifier::spinoff_prover]
pub fn parse_line(line: &[u8]) -> (r: Result<IndexEntry, VaultError>)
    ensures
        r matches Ok(e) ==> wf_entry(e@) && line@ == line_of(e@) && entry_of_line(line@) == Some(
            e@,
        ),
        r matches Err(er) ==> er == VaultError::IndexCorrupt && entry_of_line(line@) is None,
{
    let n = line.len();
    let mut i: usize = 0;
    let mut count: usize = 0;
    let mut p1: usize = 0;
    let mut p2: usize = 0;
    let mut p3: usize = 0;
    while i < n
        invariant
            n == line@.len(),
            i <= n,
            count <= 3,
            forall|j: int| 0 <= j < i ==> line@[j] != NL,
            count >= 1 ==> p1 < i && line@[p1 as int] == SEP,
            count >= 2 ==> p1 < p2 && p2 < i && line@[p2 as int] == SEP,
            count >= 3 ==> p2 < p3 && p3 < i && line@[p3 as int] == SEP,
            forall|j: int|
                0 <= j < i && line@[j] == SEP ==> (count >= 1 && j == p1) || (count >= 2 && j
                    == p2) || (count >= 3 && j == p3),
        decreases n - i,
    {
        let b = line[i];
        if b == NL {
            proof {
                if exists|m: EntryModel| wf_entry(m) && line@ == line_of(m) {
                    let m = choose|m: EntryModel| wf_entry(m) && line@ == line_of(m);
                    lemma_line_shape(m);
                    assert(line_of(m)[i as int] != NL);
                    assert(false);
                }
            }
            return Err(VaultError::IndexCorrupt);
        }
        if b == SEP {
            if count == 0 {
                p1 = i;
                count = 1;
            } else if count == 1 {
                p2 = i;
                count = 2;
            } else if count == 2 {
                p3 = i;
                count = 3;
            } else {
                proof {
                    if exists|m: EntryModel| wf_entry(m) && line@ == line_of(m) {
                        let m = choose|m: EntryModel| wf_entry(m) && line@ == line_of(m);
                        lemma_line_shape(m);
                        assert(line_of(m)[p1 as int] == SEP);
                        assert(line_of(m)[p2 as int] == SEP);
                        assert(line_of(m)[p3 as int] == SEP);
                        assert(line_of(m)[i as int] == SEP);
                        assert(false);
                    }
                }
                return Err(VaultError::IndexCorrupt);
            }
        }
        i += 1;
    }
    if count != 3 || p1 != 3 {
        proof {
            if exists|m: EntryModel| wf_entry(m) && line@ == line_of(m) {
                let m = choose|m: EntryModel| wf_entry(m) && line@ == line_of(m);
                lemma_line_shape(m);
                let a = m.app.len() as int;
                let d = m.desc.len() as int;
                assert(line_of(m)[3] == SEP && line_of(m)[4 + a] == SEP && line_of(m)[5 + a + d]
                    == SEP);
                assert(false);
            }
        }
        return Err(VaultError::IndexCorrupt);
    }
    let b0 = line[0];
    let b1 = line[1];
    let b2 = line[2];
    if b0 < 48 || b0 > 57 || b1 < 48 || b1 > 57 || b2 < 48 || b2 > 57 {
        proof {
            if exists|m: EntryModel| wf_entry(m) && line@ == line_of(m) {
                let m = choose|m: EntryModel| wf_entry(m) && line@ == line_of(m);
                lemma_line_shape(m);
                assert(line@[0] == digits3(m.id)[0]) by {
                    assert(line_of(m).subrange(0, 3) == digits3(m.id));
                }
                assert(line@[1] == digits3(m.id)[1]) by {
                    assert(line_of(m).subrange(0, 3) == digits3(m.id));
                }
                assert(line@[2] == digits3(m.id)[2]) by {
                    assert(line_of(m).subrange(0, 3) == digits3(m.id));
                }
                assert(false);
            }
        }
        return Err(VaultError::IndexCorrupt);
    }
    let id: u32 = (b0 as u32 - 48) * 100 + (b1 as u32 - 48) * 10 + (b2 as u32 - 48);
    if id == 0 {
        proof {
            if exists|m: EntryModel| wf_entry(m) && line@ == line_of(m) {
                let m = choose|m: EntryModel| wf_entry(m) && line@ == line_of(m);
                lemma_line_shape(m);
                assert(line@[0] == digits3(m.id)[0]) by {
                    assert(line_of(m).subrange(0, 3) == digits3(m.id));
                }
                assert(line@[1] == digits3(m.id)[1]) by {
                    assert(line_of(m).subrange(0, 3) == digits3(m.id));
                }
                assert(line@[2] == digits3(m.id)[2]) by {
                    assert(line_of(m).subrange(0, 3) == digits3(m.id));
                }
                lemma_id_digits(m.id);
                assert(m.id == 0);
                assert(false);
            }
        }
        return Err(VaultError::IndexCorrupt);
    }
    let app = vstd::slice::slice_to_vec(vstd::slice::slice_subrange(line, 4, p2));
    let desc = vstd::slice::slice_to_vec(vstd::slice::slice_subrange(line, p2 + 1, p3));
    let format = vstd::slice::slice_to_vec(vstd::slice::slice_subrange(line, p3, n));
    let e = IndexEntry { id, app, desc, format };
    proof {
        let me = e@;
        assert(wf_entry(me)) by {
            assert forall|k: int| 0 <= k < me.app.len() implies me.app[k] != SEP && me.app[k]
                != NL by {
                assert(me.app[k] == line@[4 + k]);
            }
            assert forall|k: int| 0 <= k < me.desc.len() implies me.desc[k] != SEP && me.desc[k]
                != NL by {
                assert(me.desc[k] == line@[p2 + 1 + k]);
            }
            assert(me.format[0] == line@[p3 as int]);
            assert forall|k: int| 1 <= k < me.format.len() implies me.format[k] != SEP
                && me.format[k] != NL by {
                assert(me.format[k] == line@[p3 + k]);
            }
        }
        lemma_line_shape(me);
        lemma_digits_value((b0 - 48) as u32, (b1 - 48) as u32, (b2 - 48) as u32);
        assert(digits3(me.id) =~= seq![b0, b1, b2]);
        assert(line@ =~= line_of(me)) by {
            assert forall|k: int| 0 <= k < line@.len() implies line@[k] == line_of(me)[k] by {
                let a = me.app.len() as int;
                let d = me.desc.len() as int;
                if k < 3 {
                    assert(line_of(me)[k] == digits3(me.id)[k]) by {
                        assert(line_of(me).subrange(0, 3) == digits3(me.id));
                    }
                } else if k == 3 {
                } else if k < p2 {
                    assert(line_of(me)[k] == me.app[k - 4]) by {
                        assert(line_of(me).subrange(4, 4 + a) == me.app);
                    }
                    assert(me.app[k - 4] == line@[k]);
                } else if k == p2 {
                    assert(4 + a == p2);
                } else if k < p3 {
                    assert(line_of(me)[k] == me.desc[k - 5 - a]) by {
                        assert(line_of(me).subrange(5 + a, 5 + a + d) == me.desc);
                    }
                    assert(me.desc[k - 5 - a] == line@[p2 + 1 + (k - p2 - 1)]);
                } else {
                    assert(5 + a + d == p3);
                    assert(line_of(me)[k] == me.format[k - 5 - a - d]) by {
                        assert(line_of(me).subrange(5 + a + d, line_of(me).len() as int)
                            == me.format);
                    }
                    assert(me.format[k - p3] == line@[p3 + (k - p3)]);
                }
            }
        }
        assert(entry_of_line(line@) == Some(me)) by {
            assert(wf_entry(me) && line@ == line_of(me));
            let mc = choose|m: EntryModel| wf_entry(m) && line@ == line_of(m);
            lemma_line_of_injective(mc, me);
        }
    }
    Ok(e)
}

impl IndexEntry {
    /// A copy of this entry with the same model.
    pub fn duplicate(&self) -> (r: IndexEntry)
        ensures
            r@ == self@,
    {
        let r = IndexEntry {
            id: self.id,
            app: copy_bytes(self.app.as_slice()),
            desc: copy_bytes(self.desc.as_slice()),
            format: copy_bytes(self.format.as_slice()),
        };
        proof {
            assert(r@ =~= self@);
        }
        r
    }
}

/// Every entry of the sequence is well formed.
pub open spec fn wf_models(ms: Seq<EntryModel>) -> bool {
    forall|i: int| 0 <= i < ms.len() ==> wf_entry(#[trigger] ms[i])
}

/// Ids grow strictly from front to back; the last entry carries the largest
/// id. The writers preserve this invariant.
pub open spec fn ids_increasing(ms: Seq<EntryModel>) -> bool {
    forall|i: int, j: int| 0 <= i < j < ms.len() ==> ms[i].id < ms[j].id
}

/// The id the next appended entry receives.
pub open spec fn next_id_spec(ms: Seq<EntryModel>) -> int {
    if ms.len() == 0 {
        1
    } else {
        ms.last().id + 1
    }
}

/// What `append` does to the sequence of entries.
pub open spec fn append_spec(
    ms: Seq<EntryModel>,
    app: Seq<u8>,
    desc: Seq<u8>,
    format: Seq<u8>,
) -> Seq<EntryModel> {
    ms.push(EntryModel { id: next_id_spec(ms) as u32, app, desc, format })
}

/// What `remove` does: every entry with the given id is dropped, the rest
/// keep their order.
pub open spec fn remove_spec(ms: Seq<EntryModel>, id: u32) -> Seq<EntryModel> {
    ms.filter(|m: EntryModel| m.id != id)
}

/// The entries whose serialized line contains the search string, most recent
/// first.
pub open spec fn search_spec(ms: Seq<EntryModel>, needle: Seq<u8>) -> Seq<EntryModel> {
    ms.filter(|m: EntryModel| contains_sub(line_of(m), needle)).reverse()
}

/// The serialization of a whole index: lines joined by a newline, with no
/// trailing newline. The empty index serializes to the empty string.
pub open spec fn index_text(ms: Seq<EntryModel>) -> Seq<u8>
    decreases ms.len(),
{
    if ms.len() == 0 {
        Seq::empty()
    } else if ms.len() == 1 {
        line_of(ms[0])
    } else {
        index_text(ms.drop_last()) + seq![NL] + line_of(ms.last())
    }
}

/// The in-memory index: the ordered list of entries.
pub struct Index {
    pub entries: Vec<IndexEntry>,
}

impl Index {
    /// The mathematical content of the index.
    pub open spec fn models(&self) -> Seq<EntryModel> {
        self.entries@.map_values(|e: IndexEntry| e@)
    }

    /// Every held entry is well formed.
    pub open spec fn wf(&self) -> bool {
        wf_models(self.models())
    }

    /// The empty index: the bootstrap state before any secret was added.
    pub fn new() -> (r: Index)
        ensures
            r.models() == Seq::<EntryModel>::empty(),
            r.wf(),
    {
        let r = Index { entries: Vec::new() };
        proof {
            assert(r.models() =~= Seq::<EntryModel>::empty());
        }
        r
    }

    /// Appends a new entry under the next id, `last id + 1` (or 1 when the
    /// index is empty), and returns that id; fails with `IndexFull` exactly
    /// when the next id would no longer fit in three digits.
    pub fn append(&mut self, app: &[u8], desc: &[u8], format: &[u8]) -> (r: Result<
        u32,
        VaultError,
    >)
        requires
            old(self).wf(),
            valid_field(app@),
            valid_field(desc@),
            valid_format(format@),
        ensures
            final(self).wf(),
            r matches Ok(id) ==> id as int == next_id_spec(old(self).models())
                && final(self).models() == append_spec(old(self).models(), app@, desc@, format@),
            r matches Err(er) ==> er == VaultError::IndexFull
                && final(self).models() == old(self).models()
                && next_id_spec(old(self).models()) > 999,
            r is Ok <==> next_id_spec(old(self).models()) <= 999,
    {
        let n = self.entries.len();
        let next: u32 = if n == 0 {
            1
        } else {
            proof {
                assert(self.models()[n - 1] == self.entries@[n - 1]@);
                assert(wf_entry(self.models()[n - 1]));
            }
            self.entries[n - 1].id + 1
        };
        if next > 999 {
            return Err(VaultError::IndexFull);
        }
        let e = IndexEntry {
            id: next,
            app: copy_bytes(app),
            desc: copy_bytes(desc),
            format: copy_bytes(format),
        };
        let ghost pre = self.models();
        let ghost em = e@;
        self.entries.push(e);
        proof {
            assert(em == EntryModel { id: next_id_spec(pre) as u32, app: app@, desc: desc@, format: format@ });
            assert(self.models() =~= pre.push(em)) by {
                assert(self.entries@ == old(self).entries@.push(e));
                old(self).entries@.lemma_push_map_commute(|t: IndexEntry| t@, e);
            }
            assert(self.models() == append_spec(pre, app@, desc@, format@));
            assert forall|i: int| 0 <= i < self.models().len() implies wf_entry(
                #[trigger] self.models()[i],
            ) by {
                if i < pre.len() {
                    assert(self.models()[i] == pre[i]);
                }
            }
        }
        Ok(next)
    }

    /// Removes every entry whose id equals `id`; removing an id that is not
    /// present leaves the index unchanged.
    pub fn remove(&mut self, id: u32)
        requires
            old(self).wf(),
        ensures
            final(self).wf(),
            final(self).models() == remove_spec(old(self).models(), id),
    {
        let mut kept: Vec<IndexEntry> = Vec::new();
        let mut i: usize = 0;
        proof {
            reveal(Seq::filter);
            assert(old(self).models().take(0) =~= Seq::<EntryModel>::empty());
            assert(kept@.map_values(|t: IndexEntry| t@) =~= remove_spec(
                old(self).models().take(0),
                id,
            ));
        }
        while i < self.entries.len()
            invariant
                i <= self.entries@.len(),
                self == old(self),
                old(self).wf(),
                kept@.map_values(|t: IndexEntry| t@) == remove_spec(
                    old(self).models().take(i as int),
                    id,
                ),
            decreases self.entries@.len() - i,
        {
            let ghost pre_kept = kept@;
            let e = &self.entries[i];
            proof {
                assert(self.models()[i as int] == self.entries@[i as int]@);
            }
            if e.id != id {
                kept.push(e.duplicate());
            }
            proof {
                reveal(Seq::filter);
                let ms = old(self).models();
                assert(ms.take(i + 1).drop_last() =~= ms.take(i as int));
                assert(ms.take(i + 1).last() == ms[i as int]);
                if e.id != id {
                    pre_kept.lemma_push_map_commute(|t: IndexEntry| t@, kept@.last());
                    assert(kept@ =~= pre_kept.push(kept@.last()));
                    assert(kept@.map_values(|t: IndexEntry| t@) =~= remove_spec(
                        ms.take(i + 1),
                        id,
                    ));
                } else {
                    assert(kept@.map_values(|t: IndexEntry| t@) =~= remove_spec(
                        ms.take(i + 1),
                        id,
                    ));
                }
            }
            i += 1;
        }
        proof {
            assert(old(self).models().take(self.entries@.len() as int) =~= old(self).models());
        }
        self.entries = kept;
        proof {
            assert forall|k: int| 0 <= k < self.models().len() implies wf_entry(
                #[trigger] self.models()[k],
            ) by {
                lemma_filter_element_of(old(self).models(), |m: EntryModel| m.id != id, k);
            }
        }
    }

    /// The entries whose serialized line contains `needle`, most recent
    /// first. Matching is over the whole line, so the search string may hit
    /// the id, the app, the description or the format.
    pub fn search(&self, needle: &[u8]) -> (r: Vec<IndexEntry>)
        requires
            self.wf(),
        ensures
            r@.map_values(|t: IndexEntry| t@) == search_spec(self.models(), needle@),
            wf_models(r@.map_values(|t: IndexEntry| t@)),
    {
        let mut out: Vec<IndexEntry> = Vec::new();
        let n = self.entries.len();
        let mut i: usize = n;
        let ghost pred = |m: EntryModel| contains_sub(line_of(m), needle@);
        proof {
            reveal(Seq::filter);
            assert(self.models().skip(n as int) =~= Seq::<EntryModel>::empty());
            assert(out@.map_values(|t: IndexEntry| t@) =~= self.models().skip(
                n as int,
            ).filter(pred).reverse());
        }
        while i > 0
            invariant
                i <= n,
                n == self.entries@.len(),
                self.wf(),
                pred == (|m: EntryModel| contains_sub(line_of(m), needle@)),
                out@.map_values(|t: IndexEntry| t@) == self.models().skip(i as int).filter(
                    pred,
                ).reverse(),
            decreases i,
        {
            i -= 1;
            let e = &self.entries[i];
            proof {
                assert(self.models()[i as int] == self.entries@[i as int]@);
            }
            let ghost pre_out = out@;
            let line = line_bytes(e);
            if bytes_contains(line.as_slice(), needle) {
                out.push(e.duplicate());
            }
            proof {
                let ms = self.models();
                let m = ms[i as int];
                assert(ms.skip(i as int) =~= seq![m] + ms.skip(i + 1));
                ms.skip(i + 1).lemma_filter_prepend(m, pred);
                if pred(m) {
                    pre_out.lemma_push_map_commute(|t: IndexEntry| t@, out@.last());
                    assert(out@ =~= pre_out.push(out@.last()));
                    assert((seq![m] + ms.skip(i + 1).filter(pred)).reverse() =~= ms.skip(
                        i + 1,
                    ).filter(pred).reverse().push(m));
                    assert(out@.map_values(|t: IndexEntry| t@) =~= ms.skip(i as int).filter(
                        pred,
                    ).reverse());
                } else {
                    assert((Seq::<EntryModel>::empty() + ms.skip(i + 1).filter(pred)).reverse()
                        =~= ms.skip(i + 1).filter(pred).reverse());
                    assert(out@.map_values(|t: IndexEntry| t@) =~= ms.skip(i as int).filter(
                        pred,
                    ).reverse());
                }
            }
        }
        proof {
            assert(self.models().skip(0) =~= self.models());
            let res = out@.map_values(|t: IndexEntry| t@);
            assert forall|k: int| 0 <= k < res.len() implies wf_entry(#[trigger] res[k]) by {
                let fs = self.models().filter(pred);
                assert(res[k] == fs[fs.len() - 1 - k]);
                lemma_filter_element_of(self.models(), pred, fs.len() - 1 - k);
            }
        }
        out
    }

    /// Serializes the whole index: entry lines joined by a newline.
    pub fn serialize(&self) -> (r: Vec<u8>)
        requires
            self.wf(),
        ensures
            r@ == index_text(self.models()),
    {
        let mut out: Vec<u8> = Vec::new();
        let mut i: usize = 0;
        proof {
            assert(self.models().take(0) =~= Seq::<EntryModel>::empty());
            assert(out@ =~= index_text(self.models().take(0)));
        }
        while i < self.entries.len()
            invariant
                i <= self.entries@.len(),
                self.wf(),
                out@ == index_text(self.models().take(i as int)),
            decreases self.entries@.len() - i,
        {
            let ghost pre_out = out@;
            if i > 0 {
                out.push(NL);
            }
            proof {
                assert(self.models()[i as int] == self.entries@[i as int]@);
            }
            let line = line_bytes(&self.entries[i]);
            extend_bytes(&mut out, line.as_slice());
            proof {
                let ms = self.models();
                let tk1 = ms.take(i + 1);
                assert(tk1.drop_last() =~= ms.take(i as int));
                assert(tk1.last() == ms[i as int]);
                if i == 0 {
                    assert(out@ =~= index_text(tk1));
                } else {
                    assert(index_text(tk1) == index_text(ms.take(i as int)) + seq![NL] + line_of(
                        ms[i as int],
                    ));
                    assert(out@ =~= index_text(tk1));
                }
            }
            i += 1;
        }
        proof {
            assert(self.models().take(self.entries@.len() as int) =~= self.models());
        }
        out
    }
}

/// Serializes one entry to its line.
pub fn line_bytes(e: &IndexEntry) -> (r: Vec<u8>)
    requires
        wf_entry(e@),
    ensures
        r@ == line_of(e@),
{
    let mut out: Vec<u8> = Vec::new();
    out.push((48 + (e.id / 100) % 10) as u8);
    out.push((48 + (e.id / 10) % 10) as u8);
    out.push((48 + e.id % 10) as u8);
    out.push(SEP);
    extend_bytes(&mut out, e.app.as_slice());
    out.push(SEP);
    extend_bytes(&mut out, e.desc.as_slice());
    extend_bytes(&mut out, e.format.as_slice());
    proof {
        assert(out@ =~= line_of(e@));
    }
    out
}

/// Every element of a filtered sequence is an element of the original.
proof fn lemma_filter_element_of(ms: Seq<EntryModel>, pred: spec_fn(EntryModel) -> bool, k: int)
    requires
        0 <= k < ms.filter(pred).len(),
    ensures
        exists|j: int| 0 <= j < ms.len() && #[trigger] ms[j] == ms.filter(pred)[k],
    decreases ms.len(),
{
    reveal(Seq::filter);
    if ms.len() > 0 {
        let fs = ms.filter(pred);
        if pred(ms.last()) && k == fs.len() - 1 {
            assert(ms[ms.len() - 1] == fs[k]);
        } else {
            lemma_filter_element_of(ms.drop_last(), pred, k);
            let j = choose|j: int|
                0 <= j < ms.drop_last().len() && #[trigger] ms.drop_last()[j] == ms.drop_last().filter(
                    pred,
                )[k];
            assert(ms[j] == fs[k]);
        }
    }
}

/// All entries stay when none carries the removed id.
proof fn lemma_filter_keeps_all(ms: Seq<EntryModel>, pred: spec_fn(EntryModel) -> bool)
    requires
        forall|i: int| 0 <= i < ms.len() ==> pred(#[trigger] ms[i]),
    ensures
        ms.filter(pred) == ms,
    decreases ms.len(),
{
    reveal(Seq::filter);
    if ms.len() > 0 {
        lemma_filter_keeps_all(ms.drop_last(), pred);
        assert(ms.filter(pred) =~= ms);
    } else {
        assert(ms.filter(pred) =~= ms);
    }
}

/// In an id-sorted index no id exceeds the last one.
pub proof fn lemma_last_id_is_max(ms: Seq<EntryModel>)
    requires
        ids_increasing(ms),
    ensures
        forall|i: int| 0 <= i < ms.len() ==> #[trigger] ms[i].id <= ms.last().id,
{
}

/// Law: appending an entry and then removing its id restores the index to
/// its prior state, provided ids grow from front to back (the invariant the
/// writers maintain), since the fresh id then names only the new entry.
pub proof fn lemma_append_then_remove(
    ms: Seq<EntryModel>,
    app: Seq<u8>,
    desc: Seq<u8>,
    format: Seq<u8>,
)
    requires
        wf_models(ms),
        ids_increasing(ms),
        next_id_spec(ms) <= 999,
    ensures
        remove_spec(append_spec(ms, app, desc, format), next_id_spec(ms) as u32) == ms,
{
    reveal(Seq::filter);
    let id = next_id_spec(ms) as u32;
    let e = EntryModel { id, app, desc, format };
    let pushed = ms.push(e);
    lemma_last_id_is_max(ms);
    assert(pushed.drop_last() =~= ms);
    assert(pushed.last() == e);
    let pred = |m: EntryModel| m.id != id;
    assert forall|i: int| 0 <= i < ms.len() implies pred(#[trigger] ms[i]) by {
        assert(ms[i].id <= ms.last().id);
    }
    lemma_filter_keeps_all(ms, pred);
}

/// Removal keeps every entry well formed: the result is a subsequence.
pub proof fn lemma_remove_spec_preserves_wf(ms: Seq<EntryModel>, id: u32)
    requires
        wf_models(ms),
    ensures
        wf_models(remove_spec(ms, id)),
{
    let fs = remove_spec(ms, id);
    assert forall|k: int| 0 <= k < fs.len() implies wf_entry(#[trigger] fs[k]) by {
        lemma_filter_element_of(ms, |m: EntryModel| m.id != id, k);
    }
}

/// Appending a well-formed entry keeps the index well formed.
pub proof fn lemma_append_spec_preserves_wf(
    ms: Seq<EntryModel>,
    app: Seq<u8>,
    desc: Seq<u8>,
    format: Seq<u8>,
)
    requires
        wf_models(ms),
        valid_field(app),
        valid_field(desc),
        valid_format(format),
        next_id_spec(ms) <= 999,
    ensures
        wf_models(append_spec(ms, app, desc, format)),
{
    let post = append_spec(ms, app, desc, format);
    assert forall|k: int| 0 <= k < post.len() implies wf_entry(#[trigger] post[k]) by {
        if k < ms.len() {
            assert(post[k] == ms[k]);
        }
    }
}

/// Law: removing an id a second time changes nothing — after one removal no
/// entry with that id is left.
pub proof fn lemma_remove_spec_idempotent(ms: Seq<EntryModel>, id: u32)
    ensures
        remove_spec(remove_spec(ms, id), id) == remove_spec(ms, id),
{
    let pred = |m: EntryModel| m.id != id;
    let fs = ms.filter(pred);
    assert forall|i: int| 0 <= i < fs.len() implies pred(#[trigger] fs[i]) by {
        ms.lemma_filter_pred(pred, i);
    }
    lemma_filter_keeps_all(fs, pred);
}

/// Appending preserves the strictly increasing ids: the fresh id exceeds
/// every id already present.
pub proof fn lemma_append_keeps_increasing(
    ms: Seq<EntryModel>,
    app: Seq<u8>,
    desc: Seq<u8>,
    format: Seq<u8>,
)
    requires
        wf_models(ms),
        ids_increasing(ms),
        next_id_spec(ms) <= 999,
    ensures
        ids_increasing(append_spec(ms, app, desc, format)),
{
    lemma_last_id_is_max(ms);
    let post = append_spec(ms, app, desc, format);
    assert forall|i: int, j: int| 0 <= i < j < post.len() implies post[i].id < post[j].id by {
        if j < ms.len() {
            assert(post[i] == ms[i] && post[j] == ms[j]);
        } else {
            assert(post[i] == ms[i]);
            assert(ms[i].id <= ms.last().id);
        }
    }
}

/// Exactly consecutive ids starting at 1: entry `i` carries id `i + 1`.
pub open spec fn consecutive_ids(ms: Seq<EntryModel>) -> bool {
    forall|i: int| 0 <= i < ms.len() ==> (#[trigger] ms[i].id) as int == i + 1
}

/// Law: starting from an empty index, a run of appends numbers the entries
/// 1, 2, 3, ... in order, each rendered as exactly three zero-padded digits;
/// appending preserves consecutive numbering while the index is below its
/// 999-entry bound.
pub proof fn lemma_append_keeps_consecutive(
    ms: Seq<EntryModel>,
    app: Seq<u8>,
    desc: Seq<u8>,
    format: Seq<u8>,
)
    requires
        consecutive_ids(ms),
        ms.len() < 999,
    ensures
        consecutive_ids(append_spec(ms, app, desc, format)),
        append_spec(ms, app, desc, format).len() == ms.len() + 1,
        digits3(next_id_spec(ms) as u32).len() == 3,
        next_id_spec(ms) == ms.len() + 1,
{
    let post = append_spec(ms, app, desc, format);
    if ms.len() > 0 {
        assert(ms.last().id as int == ms.len());
    }
    assert forall|i: int| 0 <= i < post.len() implies (#[trigger] post[i].id) as int == i + 1 by {
        if i < ms.len() {
            assert(post[i] == ms[i]);
        }
    }
}

/// Consecutive numbering is a special case of strictly increasing ids.
pub proof fn lemma_consecutive_implies_increasing(ms: Seq<EntryModel>)
    requires
        consecutive_ids(ms),
    ensures
        ids_increasing(ms),
{
}

/// The pieces of a byte sequence between its newlines; always at least one
/// piece, as splitting the empty sequence gives one empty piece.
pub open spec fn split_lines(d: Seq<u8>) -> Seq<Seq<u8>>
    decreases d.len(),
{
    if d.len() == 0 {
        seq![Seq::empty()]
    } else if d[0] == NL {
        seq![Seq::<u8>::empty()] + split_lines(d.drop_first())
    } else {
        let rest = split_lines(d.drop_first());
        seq![seq![d[0]] + rest[0]] + rest.drop_first()
    }
}

/// Splitting yields at least one piece.
pub proof fn lemma_split_lines_len(d: Seq<u8>)
    ensures
        split_lines(d).len() >= 1,
    decreases d.len(),
{
    if d.len() > 0 {
        lemma_split_lines_len(d.drop_first());
    }
}

/// A sequence without a newline splits into itself alone.
pub proof fn lemma_split_no_nl(d: Seq<u8>)
    requires
        forall|j: int| 0 <= j < d.len() ==> d[j] != NL,
    ensures
        split_lines(d) == seq![d],
    decreases d.len(),
{
    if d.len() == 0 {
        assert(split_lines(d) =~~= seq![d]);
    } else {
        assert(d[0] != NL);
        lemma_split_no_nl(d.drop_first());
        lemma_split_lines_len(d.drop_first());
        assert(seq![d[0]] + d.drop_first() =~= d);
        assert(split_lines(d) =~~= seq![d]);
    }
}

/// Splitting at the first newline: the prefix is one piece, the rest splits
/// on its own.
pub proof fn lemma_split_at_first_nl(d: Seq<u8>, k: int)
    requires
        0 <= k < d.len(),
        d[k] == NL,
        forall|j: int| 0 <= j < k ==> d[j] != NL,
    ensures
        split_lines(d) == seq![d.take(k)] + split_lines(d.skip(k + 1)),
    decreases k,
{
    if k == 0 {
        assert(d.take(0) =~= Seq::<u8>::empty());
        assert(d.skip(1) =~= d.drop_first());
        assert(split_lines(d) =~~= seq![d.take(0)] + split_lines(d.skip(1)));
    } else {
        let t = d.drop_first();
        assert(t[k - 1] == NL);
        assert forall|j: int| 0 <= j < k - 1 implies t[j] != NL by {
            assert(t[j] == d[j + 1]);
        }
        lemma_split_at_first_nl(t, k - 1);
        lemma_split_lines_len(t.skip(k));
        assert(seq![d[0]] + t.take(k - 1) =~= d.take(k));
        assert(t.skip(k) =~= d.skip(k + 1));
        assert((seq![t.take(k - 1)] + split_lines(t.skip(k))).drop_first() =~= split_lines(
            t.skip(k),
        ));
        assert(split_lines(d) =~~= seq![d.take(k)] + split_lines(d.skip(k + 1)));
    }
}

/// Parses a sequence of lines, skipping empty ones; `None` as soon as one
/// nonempty line is not the serialization of a well-formed entry.
pub open spec fn parse_lines(lines: Seq<Seq<u8>>) -> Option<Seq<EntryModel>>
    decreases lines.len(),
{
    if lines.len() == 0 {
        Some(Seq::empty())
    } else {
        let rest = parse_lines(lines.drop_first());
        if lines[0].len() == 0 {
            rest
        } else {
            match (entry_of_line(lines[0]), rest) {
                (Some(m), Some(ms)) => Some(seq![m] + ms),
                _ => None,
            }
        }
    }
}

/// The entries a decrypted index blob stands for, if every nonempty line
/// parses.
pub open spec fn load_models(d: Seq<u8>) -> Option<Seq<EntryModel>> {
    parse_lines(split_lines(d))
}

/// Prepends already-parsed entries to a partial parse result.
pub open spec fn opt_prepend(
    pre: Seq<EntryModel>,
    rest: Option<Seq<EntryModel>>,
) -> Option<Seq<EntryModel>> {
    match rest {
        Some(ms) => Some(pre + ms),
        None => None,
    }
}

/// The serialization seen from the front: the first line, a newline, then
/// the serialization of the remaining entries.
proof fn lemma_index_text_front(ms: Seq<EntryModel>)
    requires
        ms.len() >= 2,
    ensures
        index_text(ms) == line_of(ms[0]) + seq![NL] + index_text(ms.drop_first()),
    decreases ms.len(),
{
    if ms.len() == 2 {
        assert(ms.drop_last()[0] == ms[0]);
        assert(ms.drop_last() =~= seq![ms[0]]);
        assert(ms.drop_first() =~= seq![ms[1]]);
        assert(index_text(seq![ms[0]]) == line_of(ms[0]));
        assert(index_text(seq![ms[1]]) == line_of(ms[1]));
        assert(index_text(ms) =~= line_of(ms[0]) + seq![NL] + index_text(ms.drop_first()));
    } else {
        lemma_index_text_front(ms.drop_last());
        assert(ms.drop_last()[0] == ms[0]);
        assert(ms.drop_last().drop_first() =~= ms.drop_first().drop_last());
        assert(ms.drop_first().last() == ms.last());
        assert(index_text(ms.drop_first()) == index_text(ms.drop_first().drop_last()) + seq![NL]
            + line_of(ms.last()));
        assert(index_text(ms) =~= line_of(ms[0]) + seq![NL] + index_text(ms.drop_first()));
    }
}

/// Law: the index parser inverts the writer — loading the serialization of
/// any sequence of well-formed entries yields exactly those entries, in
/// order.
pub proof fn lemma_index_text_round_trip(ms: Seq<EntryModel>)
    requires
        wf_models(ms),
    ensures
        load_models(index_text(ms)) == Some(ms),
    decreases ms.len(),
{
    let text = index_text(ms);
    if ms.len() == 0 {
        assert(split_lines(text) =~~= seq![Seq::<u8>::empty()]);
        assert(seq![Seq::<u8>::empty()].drop_first() =~= Seq::<Seq<u8>>::empty());
        assert(parse_lines(Seq::<Seq<u8>>::empty()) == Some(Seq::<EntryModel>::empty()));
        assert(parse_lines(split_lines(text)) == Some(Seq::<EntryModel>::empty()));
        assert(ms =~= Seq::<EntryModel>::empty());
    } else if ms.len() == 1 {
        let m = ms[0];
        lemma_line_shape(m);
        assert(text == line_of(m));
        lemma_split_no_nl(text);
        assert(entry_of_line(text) == Some(m)) by {
            assert(wf_entry(m) && text == line_of(m));
            let mc = choose|m2: EntryModel| wf_entry(m2) && text == line_of(m2);
            lemma_line_of_injective(mc, m);
        }
        assert(seq![text].drop_first() =~= Seq::<Seq<u8>>::empty());
        assert(parse_lines(Seq::<Seq<u8>>::empty()) == Some(Seq::<EntryModel>::empty()));
        assert(text.len() > 0);
        assert(parse_lines(seq![text]) == Some(seq![m] + Seq::<EntryModel>::empty()));
        assert(seq![m] + Seq::<EntryModel>::empty() =~= ms);
    } else {
        let m = ms[0];
        let rest = ms.drop_first();
        let line = line_of(m);
        let k = line.len() as int;
        lemma_line_shape(m);
        lemma_index_text_front(ms);
        assert forall|j: int| 0 <= j < k implies text[j] != NL by {
            assert(text[j] == line[j]);
        }
        assert(text[k] == NL);
        lemma_split_at_first_nl(text, k);
        assert(text.take(k) =~= line);
        assert(text.skip(k + 1) =~= index_text(rest));
        assert forall|i: int| 0 <= i < rest.len() implies wf_entry(#[trigger] rest[i]) by {
            assert(rest[i] == ms[i + 1]);
        }
        lemma_index_text_round_trip(rest);
        assert(entry_of_line(line) == Some(m)) by {
            assert(wf_entry(m) && line == line_of(m));
            let mc = choose|m2: EntryModel| wf_entry(m2) && line == line_of(m2);
            lemma_line_of_injective(mc, m);
        }
        let lines = split_lines(text);
        assert(lines == seq![line] + split_lines(index_text(rest)));
        assert(lines.drop_first() =~= split_lines(index_text(rest)));
        assert(lines[0] == line && line.len() > 0);
        assert(parse_lines(lines) == Some(seq![m] + rest));
        assert(seq![m] + rest =~= ms);
    }
}

/// Loads an index from the decrypted index blob: lines are split on
/// newlines, empty lines are dropped, and each remaining line must be the
/// serialization of a well-formed entry; anything else is `IndexCorrupt`.
pub fn load_index(data: &[u8]) -> (r: Result<Index, VaultError>)
    ensures
        r matches Ok(idx) ==> load_models(data@) == Some(idx.models()) && idx.wf(),
        r matches Err(er) ==> er == VaultError::IndexCorrupt && load_models(data@) is None,
{
    let n = data.len();
    let mut entries: Vec<IndexEntry> = Vec::new();
    let mut start: usize = 0;
    proof {
        assert(data@.skip(0) =~= data@);
        assert(entries@.map_values(|t: IndexEntry| t@) =~= Seq::<EntryModel>::empty());
    }
    loop
        invariant_except_break
            start <= n,
            load_models(data@) == opt_prepend(
                entries@.map_values(|t: IndexEntry| t@),
                parse_lines(split_lines(data@.skip(start as int))),
            ),
        invariant
            n == data@.len(),
            wf_models(entries@.map_values(|t: IndexEntry| t@)),
        ensures
            load_models(data@) == Some(entries@.map_values(|t: IndexEntry| t@)),
        decreases n - start,
    {
        let ghost pre = entries@.map_values(|t: IndexEntry| t@);
        let ghost tail = data@.skip(start as int);
        let mut end: usize = start;
        while end < n && data[end] != NL
            invariant
                start <= end <= n,
                n == data@.len(),
                forall|j: int| start <= j < end ==> data@[j] != NL,
            decreases n - end,
        {
            end += 1;
        }
        let ghost line = data@.subrange(start as int, end as int);
        proof {
            if end < n {
                assert(tail[end - start] == NL);
                assert forall|j: int| 0 <= j < end - start implies tail[j] != NL by {
                    assert(tail[j] == data@[start + j]);
                }
                lemma_split_at_first_nl(tail, end - start);
                assert(tail.take(end - start) =~= line);
                assert(tail.skip(end - start + 1) =~= data@.skip(end + 1));
            } else {
                assert forall|j: int| 0 <= j < tail.len() implies tail[j] != NL by {
                    assert(tail[j] == data@[start + j]);
                }
                lemma_split_no_nl(tail);
                assert(tail =~= line);
            }
        }
        if end > start {
            let piece = vstd::slice::slice_subrange(data, start, end);
            let parsed = parse_line(piece);
            match parsed {
                Ok(e) => {
                    let ghost em = e@;
                    let ghost pre_vec = entries@;
                    entries.push(e);
                    proof {
                        pre_vec.lemma_push_map_commute(|t: IndexEntry| t@, entries@.last());
                        assert(entries@ =~= pre_vec.push(entries@.last()));
                        assert(entries@.map_values(|t: IndexEntry| t@) =~= pre.push(em));
                        if end < n {
                            let rest = parse_lines(split_lines(data@.skip(end + 1)));
                            assert(split_lines(tail) == seq![line] + split_lines(
                                data@.skip(end + 1),
                            ));
                            assert((seq![line] + split_lines(data@.skip(end + 1))).drop_first()
                                =~= split_lines(data@.skip(end + 1)));
                            assert(parse_lines(split_lines(tail)) == opt_prepend(
                                seq![em],
                                rest,
                            ));
                            assert(opt_prepend(pre, opt_prepend(seq![em], rest)) == opt_prepend(
                                pre.push(em),
                                rest,
                            )) by {
                                if rest is Some {
                                    assert(pre + (seq![em] + rest->Some_0) =~= pre.push(em)
                                        + rest->Some_0);
                                }
                            }
                        } else {
                            assert(split_lines(tail) == seq![line]);
                            assert(seq![line].drop_first() =~= Seq::<Seq<u8>>::empty());
                            assert(parse_lines(Seq::<Seq<u8>>::empty()) == Some(
                                Seq::<EntryModel>::empty(),
                            ));
                            assert(seq![em] + Seq::<EntryModel>::empty() =~= seq![em]);
                            assert(parse_lines(seq![line]) == Some(seq![em]));
                            assert(pre + seq![em] =~= pre.push(em));
                        }
                    }
                },
                Err(er) => {
                    proof {
                        if end < n {
                            assert(split_lines(tail) == seq![line] + split_lines(
                                data@.skip(end + 1),
                            ));
                            assert(parse_lines(split_lines(tail)) is None);
                        } else {
                            assert(split_lines(tail) == seq![line]);
                            assert(seq![line].drop_first() =~= Seq::<Seq<u8>>::empty());
                            assert(parse_lines(Seq::<Seq<u8>>::empty()) == Some(
                                Seq::<EntryModel>::empty(),
                            ));
                            assert(parse_lines(seq![line]) is None);
                        }
                    }
                    return Err(VaultError::IndexCorrupt);
                },
            }
        } else {
            proof {
                assert(line =~= Seq::<u8>::empty());
                if end < n {
                    assert(split_lines(tail) == seq![line] + split_lines(data@.skip(end + 1)));
                    assert((seq![line] + split_lines(data@.skip(end + 1))).drop_first()
                        =~= split_lines(data@.skip(end + 1)));
                    assert(parse_lines(split_lines(tail)) == parse_lines(
                        split_lines(data@.skip(end + 1)),
                    ));
                } else {
                    assert(split_lines(tail) == seq![line]);
                    assert(seq![line].drop_first() =~= Seq::<Seq<u8>>::empty());
                    assert(parse_lines(Seq::<Seq<u8>>::empty()) == Some(
                        Seq::<EntryModel>::empty(),
                    ));
                    assert(parse_lines(seq![line]) == Some(Seq::<EntryModel>::empty()));
                    assert(pre + Seq::<EntryModel>::empty() =~= pre);
                }
            }
        }
        if end == n {
            break ;
        }
        start = end + 1;
    }
    let idx = Index { entries };
    Ok(idx)
}

} // verus!
