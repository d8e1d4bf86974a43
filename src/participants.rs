//! A room's participant list: user ids joined by commas, read as a set.
use vstd::prelude::*;
use crate::models::texts;

verus! {

/// The pieces between commas, as `str::split(',')` cuts them: one more piece
/// than there are commas, empty pieces included.
pub open spec fn pieces(s: Seq<char>) -> Seq<Seq<char>>
    decreases s.len(),
{
    if s.len() == 0 {
        seq![Seq::empty()]
    } else {
        let p = pieces(s.drop_last());
        if s.last() == ',' {
            p.push(Seq::empty())
        } else {
            p.update(p.len() - 1, p.last().push(s.last()))
        }
    }
}

/// The non-empty entries of `xs`, each kept at its first occurrence.
pub open spec fn distinct_entries(xs: Seq<Seq<char>>) -> Seq<Seq<char>>
    decreases xs.len(),
{
    if xs.len() == 0 {
        Seq::empty()
    } else {
        let d = distinct_entries(xs.drop_last());
        if xs.last().len() == 0 || d.contains(xs.last()) {
            d
        } else {
            d.push(xs.last())
        }
    }
}

/// The participant ids that a list holds, in order of first appearance.
pub open spec fn participants(s: Seq<char>) -> Seq<Seq<char>> {
    distinct_entries(pieces(s))
}

/// The ids joined by commas.
pub open spec fn joined(ids: Seq<Seq<char>>) -> Seq<char>
    decreases ids.len(),
{
    if ids.len() == 0 {
        Seq::empty()
    } else if ids.len() == 1 {
        ids[0]
    } else {
        joined(ids.drop_last()) + seq![','] + ids.last()
    }
}

/// `ids` with `id` added at the end, unless it is there already.
pub open spec fn with_participant(ids: Seq<Seq<char>>, id: Seq<char>) -> Seq<Seq<char>> {
    if ids.contains(id) {
        ids
    } else {
        ids.push(id)
    }
}

/// A text that can stand as one entry of a list: non-empty, without commas.
pub open spec fn valid_id(id: Seq<char>) -> bool {
    id.len() > 0 && !id.contains(',')
}

/// A list of entries that joining and reading back leaves as it is.
pub open spec fn canonical(ids: Seq<Seq<char>>) -> bool {
    &&& ids.no_duplicates()
    &&& forall|i: int| 0 <= i < ids.len() ==> valid_id(#[trigger] ids[i])
}

proof fn lemma_pieces_nonempty(s: Seq<char>)
    ensures
        pieces(s).len() >= 1,
    decreases s.len(),
{
    if s.len() > 0 {
        lemma_pieces_nonempty(s.drop_last());
    }
}

/// Whether `v` holds a string with the text of `t`.
pub fn contains_text(v: &Vec<String>, t: &String) -> (r: bool)
    ensures
        r == texts(v@).contains(t@),
{
    let mut j: usize = 0;
    while j < v.len()
        invariant
            j <= v.len(),
            forall|k: int| 0 <= k < j ==> v@[k]@ != t@,
        decreases v.len() - j,
    {
        if v[j] == *t {
            assert(texts(v@)[j as int] == t@);
            return true;
        }
        j = j + 1;
    }
    assert(!texts(v@).contains(t@)) by {
        if texts(v@).contains(t@) {
            let k = choose|k: int| 0 <= k < texts(v@).len() && texts(v@)[k] == t@;
            assert(v@[k]@ == t@);
        }
    }
    false
}

/// Appends the entry `piece` to `out` unless it is empty or already there.
fn add_entry(out: &mut Vec<String>, piece: String)
    ensures
        texts(final(out)@) == (if piece@.len() == 0 || texts(old(out)@).contains(piece@) {
            texts(old(out)@)
        } else {
            texts(old(out)@).push(piece@)
        }),
{
    if piece.unicode_len() > 0 && !contains_text(out, &piece) {
        let ghost before = out@;
        out.push(piece);
        assert(texts(out@) =~= texts(before).push(piece@));
    }
}

/// The participant ids of a list, in order of first appearance.
pub fn parse_participants(s: &str) -> (r: Vec<String>)
    ensures
        texts(r@) == participants(s@),
{
    let n = s.unicode_len();
    let mut out: Vec<String> = Vec::new();
    let mut start: usize = 0;
    let mut i: usize = 0;
    let ghost mut done: Seq<Seq<char>> = Seq::empty();
    assert(s@.subrange(0, 0) =~= Seq::<char>::empty());
    assert(texts(out@) =~= Seq::<Seq<char>>::empty());
    while i < n
        invariant
            n == s@.len(),
            start <= i <= n,
            pieces(s@.subrange(0, i as int)) == done.push(s@.subrange(start as int, i as int)),
            texts(out@) == distinct_entries(done),
        decreases n - i,
    {
        let c = s.get_char(i);
        let ghost prefix = s@.subrange(0, i as int + 1);
        assert(prefix.drop_last() =~= s@.subrange(0, i as int));
        if c == ',' {
            let piece = s.substring_char(start, i).to_owned();
            let ghost before = done;
            proof {
                done = done.push(piece@);
                assert(done.drop_last() =~= before);
            }
            add_entry(&mut out, piece);
            start = i + 1;
            assert(s@.subrange(start as int, i as int + 1) =~= Seq::<char>::empty());
        } else {
            proof {
                lemma_pieces_nonempty(s@.subrange(0, i as int));
            }
            assert(s@.subrange(start as int, i as int + 1) =~= s@.subrange(
                start as int,
                i as int,
            ).push(c));
            assert(pieces(prefix) =~= done.push(s@.subrange(start as int, i as int + 1)));
        }
        i = i + 1;
    }
    let last = s.substring_char(start, n).to_owned();
    let ghost before = done;
    proof {
        done = done.push(last@);
        assert(done.drop_last() =~= before);
        assert(s@.subrange(0, n as int) =~= s@);
    }
    add_entry(&mut out, last);
    out
}

/// The ids of `ids` joined by commas.
pub fn join_participants(ids: &Vec<String>) -> (r: String)
    ensures
        r@ == joined(texts(ids@)),
{
    let mut r = String::new();
    let mut i: usize = 0;
    proof {
        reveal_strlit(",");
    }
    while i < ids.len()
        invariant
            i <= ids.len(),
            r@ == joined(texts(ids@).subrange(0, i as int)),
        decreases ids.len() - i,
    {
        let ghost xs = texts(ids@).subrange(0, i as int + 1);
        assert(xs.drop_last() =~= texts(ids@).subrange(0, i as int));
        assert(xs.last() == ids@[i as int]@);
        let ghost prev = r@;
        if i > 0 {
            proof {
                reveal_strlit(",");
            }
            assert(","@ =~= seq![',']);
            r.append(",");
            r.append(ids[i].as_str());
            assert(r@ =~= prev + seq![','] + ids@[i as int]@);
        } else {
            r.append(ids[i].as_str());
            assert(r@ =~= ids@[0]@);
        }
        i = i + 1;
    }
    assert(texts(ids@).subrange(0, ids.len() as int) =~= texts(ids@));
    r
}

/// A text without commas is one piece.
proof fn lemma_pieces_single(x: Seq<char>)
    requires
        !x.contains(','),
    ensures
        pieces(x) == seq![x],
    decreases x.len(),
{
    if x.len() > 0 {
        lemma_pieces_single(x.drop_last());
        assert(x.drop_last().push(x.last()) =~= x);
        assert(x.last() == x[x.len() - 1]);
    } else {
        assert(x =~= Seq::<char>::empty());
    }
}

/// A comma followed by a text without commas adds that text as the last piece.
proof fn lemma_pieces_append(a: Seq<char>, b: Seq<char>)
    requires
        !b.contains(','),
    ensures
        pieces(a + seq![','] + b) == pieces(a).push(b),
    decreases b.len(),
{
    let s = a + seq![','] + b;
    if b.len() == 0 {
        assert(s.drop_last() =~= a);
        assert(b =~= Seq::<char>::empty());
    } else {
        assert(s.drop_last() =~= a + seq![','] + b.drop_last());
        assert(!b.drop_last().contains(',')) by {
            if b.drop_last().contains(',') {
                let k = choose|k: int| 0 <= k < b.drop_last().len() && b.drop_last()[k] == ',';
                assert(b[k] == ',');
            }
        }
        lemma_pieces_append(a, b.drop_last());
        assert(s.last() == b.last());
        assert(b[b.len() - 1] == b.last());
        assert(b.drop_last().push(b.last()) =~= b);
        assert(pieces(s) =~= pieces(a).push(b));
    }
}

/// Reading a joined non-empty list of comma-free entries gives back its entries.
pub proof fn lemma_pieces_of_joined(ids: Seq<Seq<char>>)
    requires
        ids.len() >= 1,
        forall|i: int| 0 <= i < ids.len() ==> !(#[trigger] ids[i]).contains(','),
    ensures
        pieces(joined(ids)) == ids,
    decreases ids.len(),
{
    if ids.len() == 1 {
        lemma_pieces_single(ids[0]);
        assert(seq![ids[0]] =~= ids);
    } else {
        let init = ids.drop_last();
        assert forall|i: int| 0 <= i < init.len() implies !(#[trigger] init[i]).contains(',') by {
            assert(init[i] == ids[i]);
        }
        lemma_pieces_of_joined(init);
        assert(!ids[ids.len() - 1].contains(','));
        lemma_pieces_append(joined(init), ids.last());
        assert(init.push(ids.last()) =~= ids);
    }
}

/// Keeping first occurrences changes nothing in a list of distinct valid entries.
pub proof fn lemma_distinct_entries_canonical(ids: Seq<Seq<char>>)
    requires
        canonical(ids),
    ensures
        distinct_entries(ids) == ids,
    decreases ids.len(),
{
    if ids.len() > 0 {
        let init = ids.drop_last();
        assert forall|i: int| 0 <= i < init.len() implies valid_id(#[trigger] init[i]) by {
            assert(init[i] == ids[i]);
        }
        assert(init.no_duplicates());
        lemma_distinct_entries_canonical(init);
        assert(valid_id(ids[ids.len() - 1]));
        assert(!init.contains(ids.last())) by {
            if init.contains(ids.last()) {
                let k = choose|k: int| 0 <= k < init.len() && init[k] == ids.last();
                assert(ids[k] == ids[ids.len() - 1]);
            }
        }
        assert(init.push(ids.last()) =~= ids);
    } else {
        assert(ids =~= Seq::<Seq<char>>::empty());
    }
}

/// Every piece is free of commas.
proof fn lemma_pieces_no_comma(s: Seq<char>)
    ensures
        forall|i: int| 0 <= i < pieces(s).len() ==> !(#[trigger] pieces(s)[i]).contains(','),
    decreases s.len(),
{
    lemma_pieces_nonempty(s);
    if s.len() > 0 {
        let p = pieces(s.drop_last());
        lemma_pieces_no_comma(s.drop_last());
        lemma_pieces_nonempty(s.drop_last());
        if s.last() != ',' {
            let l = p.last().push(s.last());
            assert(!l.contains(',')) by {
                if l.contains(',') {
                    let k = choose|k: int| 0 <= k < l.len() && l[k] == ',';
                    if k < l.len() - 1 {
                        assert(p.last()[k] == ',');
                        assert(p[p.len() - 1].contains(','));
                    }
                }
            }
        } else {
            assert(!Seq::<char>::empty().contains(','));
        }
        assert forall|i: int| 0 <= i < pieces(s).len() implies !(#[trigger] pieces(s)[i]).contains(
            ',',
        ) by {
            if i < p.len() - 1 {
                assert(pieces(s)[i] == p[i]);
            }
        }
    }
}

/// Keeping first occurrences yields distinct non-empty entries, all taken from
/// the input, and every non-empty input entry appears.
pub proof fn lemma_distinct_entries(xs: Seq<Seq<char>>)
    ensures
        distinct_entries(xs).no_duplicates(),
        forall|i: int|
            0 <= i < distinct_entries(xs).len() ==> (#[trigger] distinct_entries(xs)[i]).len() > 0
                && xs.contains(distinct_entries(xs)[i]),
        forall|x: Seq<char>| #[trigger] xs.contains(x) && x.len() > 0 ==> distinct_entries(xs).contains(x),
    decreases xs.len(),
{
    if xs.len() > 0 {
        let init = xs.drop_last();
        lemma_distinct_entries(init);
        let d = distinct_entries(init);
        assert forall|i: int| 0 <= i < d.len() implies xs.contains(#[trigger] d[i]) by {
            let k = choose|k: int| 0 <= k < init.len() && init[k] == d[i];
            assert(xs[k] == d[i]);
        }
        assert forall|x: Seq<char>| #[trigger] xs.contains(x) && x.len() > 0 implies distinct_entries(
            xs,
        ).contains(x) by {
            let k = choose|k: int| 0 <= k < xs.len() && xs[k] == x;
            if k < xs.len() - 1 {
                assert(init[k] == x);
                assert(init.contains(x));
                assert(d.contains(x));
                let j = choose|j: int| 0 <= j < d.len() && d[j] == x;
                assert(distinct_entries(xs)[j] == x);
            } else if !d.contains(x) {
                assert(distinct_entries(xs)[d.len() as int] == x);
            }
        }
        assert(xs[xs.len() - 1] == xs.last());
    }
}

/// A list read from text is canonical.
pub proof fn lemma_participants_canonical(s: Seq<char>)
    ensures
        canonical(participants(s)),
{
    let p = pieces(s);
    lemma_pieces_no_comma(s);
    lemma_distinct_entries(p);
    assert forall|i: int| 0 <= i < participants(s).len() implies valid_id(
        #[trigger] participants(s)[i],
    ) by {
        let x = participants(s)[i];
        let k = choose|k: int| 0 <= k < p.len() && p[k] == x;
        assert(!p[k].contains(','));
    }
}

/// Reading back a joined canonical list gives the same list.
pub proof fn lemma_participants_of_joined(ids: Seq<Seq<char>>)
    requires
        canonical(ids),
    ensures
        participants(joined(ids)) == ids,
{
    if ids.len() == 0 {
        assert(pieces(Seq::<char>::empty()) == seq![Seq::<char>::empty()]);
        let p = seq![Seq::<char>::empty()];
        assert(p.drop_last() =~= Seq::<Seq<char>>::empty());
        assert(p.last().len() == 0);
        assert(distinct_entries(p.drop_last()) =~= Seq::<Seq<char>>::empty());
        assert(joined(ids) =~= Seq::<char>::empty());
        assert(distinct_entries(p) =~= ids);
    } else {
        assert forall|i: int| 0 <= i < ids.len() implies !(#[trigger] ids[i]).contains(',') by {
            assert(valid_id(ids[i]));
        }
        lemma_pieces_of_joined(ids);
        lemma_distinct_entries_canonical(ids);
    }
}

} // verus!
