//! What holds of the bencode grammar as a whole.
use vstd::prelude::*;

use crate::bencode::{
    decimal_value, dict_of, digit_run, entries_at, is_digit, items_at, lemma_digit_run_bound,
    lemma_entries_advance, lemma_items_advance, lemma_string_advances, lemma_value_advances,
    number_at, parsed, string_at, value_at, BVal, Dict, ParseError,
};

verus! {

// ---------------------------------------------------------------------------
// A value is where it is
// ---------------------------------------------------------------------------

/// Whether the bytes of `a` from `pa` to `enda` stand in `b` at `pb`.
pub open spec fn stands_at(a: Seq<u8>, pa: int, enda: int, b: Seq<u8>, pb: int) -> bool {
    &&& 0 <= pa <= enda <= a.len()
    &&& 0 <= pb
    &&& pb + (enda - pa) <= b.len()
    &&& b.len() <= usize::MAX
    &&& forall|i: int| pa <= i < enda ==> #[trigger] a[i] == b[pb + (i - pa)]
}

proof fn lemma_same_bytes(
    a: Seq<u8>,
    pa: int,
    b: Seq<u8>,
    pb: int,
    enda: int,
    from: int,
    to: int,
)
    requires
        stands_at(a, pa, enda, b, pb),
        pa <= from <= to <= enda,
    ensures
        b.subrange(pb + (from - pa), pb + (to - pa)) == a.subrange(from, to),
{
    let there = b.subrange(pb + (from - pa), pb + (to - pa));
    let here = a.subrange(from, to);
    assert forall|i: int| 0 <= i < here.len() implies #[trigger] there[i] == here[i] by {
        assert(a[from + i] == b[pb + (from + i - pa)]);
    }
    assert(there =~= here);
}

proof fn lemma_digit_run_local(a: Seq<u8>, pa: int, b: Seq<u8>, pb: int, enda: int)
    requires
        stands_at(a, pa, enda, b, pb),
        pa + digit_run(a, pa) < enda,
    ensures
        digit_run(b, pb) == digit_run(a, pa),
        number_at(b, pb) == number_at(a, pa),
    decreases enda - pa,
{
    lemma_digit_run_bound(a, pa);
    let n = digit_run(a, pa);
    assert(a[pa] == b[pb + (pa - pa)]);
    if n > 0 {
        assert(stands_at(a, pa + 1, enda, b, pb + 1)) by {
            assert forall|i: int| pa + 1 <= i < enda implies #[trigger] a[i] == b[pb + 1 + (i - (pa
                + 1))] by {
                assert(a[i] == b[pb + (i - pa)]);
            }
        }
        lemma_digit_run_local(a, pa + 1, b, pb + 1, enda);
    }
    lemma_same_bytes(a, pa, b, pb, enda, pa, pa + n);
}

pub proof fn lemma_string_local(a: Seq<u8>, pa: int, b: Seq<u8>, pb: int, enda: int)
    requires
        stands_at(a, pa, enda, b, pb),
        string_at(a, pa) matches Ok((s, end)) && end <= enda,
    ensures
        string_at(b, pb) == Ok::<(Seq<u8>, int), ParseError>(
            (string_at(a, pa)->Ok_0.0, pb + (string_at(a, pa)->Ok_0.1 - pa)),
        ),
{
    let (s, end) = string_at(a, pa)->Ok_0;
    let stop = pa + digit_run(a, pa);
    lemma_digit_run_local(a, pa, b, pb, enda);
    assert(a[stop] == b[pb + (stop - pa)]);
    let start = stop + 1;
    let n = number_at(a, pa);
    lemma_same_bytes(a, pa, b, pb, enda, start, start + n);
}

proof fn lemma_stands_later(a: Seq<u8>, pa: int, b: Seq<u8>, pb: int, enda: int, next: int)
    requires
        stands_at(a, pa, enda, b, pb),
        pa <= next <= enda,
    ensures
        stands_at(a, next, enda, b, pb + (next - pa)),
{
    assert forall|i: int| next <= i < enda implies #[trigger] a[i] == b[pb + (next - pa) + (i
        - next)] by {
        assert(a[i] == b[pb + (i - pa)]);
    }
}

/// What is read depends only on the bytes that are read.
pub proof fn lemma_value_local(a: Seq<u8>, pa: int, b: Seq<u8>, pb: int, enda: int)
    requires
        stands_at(a, pa, enda, b, pb),
        value_at(a, pa) matches Ok((v, end)) && end <= enda,
    ensures
        value_at(b, pb) == Ok::<(BVal, int), ParseError>(
            (value_at(a, pa)->Ok_0.0, pb + (value_at(a, pa)->Ok_0.1 - pa)),
        ),
    decreases enda - pa, 1int,
{
    lemma_value_advances(a, pa);
    let (v, end) = value_at(a, pa)->Ok_0;
    assert(a[pa] == b[pb + (pa - pa)]);
    lemma_stands_later(a, pa, b, pb, enda, pa + 1);
    if a[pa] == 105 {
        let neg = pa + 1 < a.len() && a[pa + 1] == 45;
        lemma_digit_run_bound(a, pa + 1);
        if neg {
            lemma_digit_run_bound(a, pa + 2);
            lemma_stands_later(a, pa, b, pb, enda, pa + 2);
            lemma_digit_run_local(a, pa + 2, b, pb + 2, enda);
        } else {
            lemma_digit_run_local(a, pa + 1, b, pb + 1, enda);
        }
        assert(a[pa + 1] == b[pb + (pa + 1 - pa)]);
        let start = if neg {
            pa + 2
        } else {
            pa + 1
        };
        let stop = start + digit_run(a, start);
        assert(a[stop] == b[pb + (stop - pa)]);
    } else if a[pa] == 108 {
        lemma_items_local(a, pa + 1, b, pb + 1, enda);
    } else if a[pa] == 100 {
        lemma_entries_advance(a, pa + 1);
        lemma_entries_local(a, pa + 1, b, pb + 1, enda);
        lemma_same_bytes(a, pa, b, pb, enda, pa, end);
    } else {
        lemma_string_local(a, pa, b, pb, enda);
    }
}

proof fn lemma_items_local(a: Seq<u8>, pa: int, b: Seq<u8>, pb: int, enda: int)
    requires
        stands_at(a, pa, enda, b, pb),
        items_at(a, pa) matches Ok((items, end)) && end <= enda,
    ensures
        items_at(b, pb) == Ok::<(Seq<BVal>, int), ParseError>(
            (items_at(a, pa)->Ok_0.0, pb + (items_at(a, pa)->Ok_0.1 - pa)),
        ),
    decreases enda - pa, 2int,
{
    lemma_items_advance(a, pa);
    assert(a[pa] == b[pb + (pa - pa)]);
    if a[pa] != 101 {
        lemma_value_advances(a, pa);
        let (v, next) = value_at(a, pa)->Ok_0;
        lemma_items_advance(a, next);
        lemma_value_local(a, pa, b, pb, enda);
        lemma_stands_later(a, pa, b, pb, enda, next);
        lemma_items_local(a, next, b, pb + (next - pa), enda);
    }
}

proof fn lemma_entries_local(a: Seq<u8>, pa: int, b: Seq<u8>, pb: int, enda: int)
    requires
        stands_at(a, pa, enda, b, pb),
        entries_at(a, pa) matches Ok((entries, end)) && end <= enda,
    ensures
        entries_at(b, pb) == Ok::<(Seq<(Seq<u8>, BVal)>, int), ParseError>(
            (entries_at(a, pa)->Ok_0.0, pb + (entries_at(a, pa)->Ok_0.1 - pa)),
        ),
    decreases enda - pa, 2int,
{
    lemma_entries_advance(a, pa);
    assert(a[pa] == b[pb + (pa - pa)]);
    if a[pa] != 101 {
        lemma_string_advances(a, pa);
        let (key, after_key) = string_at(a, pa)->Ok_0;
        lemma_value_advances(a, after_key);
        let (v, next) = value_at(a, after_key)->Ok_0;
        lemma_entries_advance(a, next);
        lemma_string_local(a, pa, b, pb, enda);
        lemma_stands_later(a, pa, b, pb, enda, after_key);
        lemma_value_local(a, after_key, b, pb + (after_key - pa), enda);
        lemma_stands_later(a, pa, b, pb, enda, next);
        lemma_entries_local(a, next, b, pb + (next - pa), enda);
    }
}

/// What follows a value does not matter.
pub proof fn law_trailing_bytes(input: Seq<u8>, behind: Seq<u8>)
    requires
        parsed(input) is Ok,
        (input + behind).len() <= usize::MAX,
    ensures
        parsed(input + behind) == parsed(input),
{
    lemma_value_advances(input, 0);
    let end = value_at(input, 0)->Ok_0.1;
    assert(stands_at(input, 0, end, input + behind, 0));
    lemma_value_local(input, 0, input + behind, 0, end);
}

/// The text that a dictionary keeps is its own: read by itself it is that very
/// dictionary, wherever it stood.
pub proof fn law_dictionary_text(input: Seq<u8>, pos: int)
    requires
        0 <= pos,
        input.len() <= usize::MAX,
        value_at(input, pos) matches Ok((v, end)) && v is Dict,
    ensures
        ({
            let (v, end) = value_at(input, pos)->Ok_0;
            let text = v->Dict_1;
            &&& text == input.subrange(pos, end)
            &&& parsed(text) == Ok::<BVal, ParseError>(v)
        }),
{
    lemma_value_advances(input, pos);
    let (v, end) = value_at(input, pos)->Ok_0;
    let text = input.subrange(pos, end);
    assert(stands_at(input, pos, end, text, 0));
    lemma_value_local(input, pos, text, 0, end);
}

// ---------------------------------------------------------------------------
// What is written is read
// ---------------------------------------------------------------------------

/// A value that is to be written.
pub enum Tree {
    Int(int),
    Str(Seq<u8>),
    List(Seq<Tree>),
    Dict(Seq<(Seq<u8>, Tree)>),
}

/// A number in decimal notation, as bytes.
pub open spec fn decimal_bytes(n: nat) -> Seq<u8>
    decreases n,
{
    if n < 10 {
        seq![(48 + n) as u8]
    } else {
        decimal_bytes(n / 10).push((48 + n % 10) as u8)
    }
}

pub open spec fn string_text(s: Seq<u8>) -> Seq<u8> {
    decimal_bytes(s.len()) + seq![58u8] + s
}

pub open spec fn int_text(n: int) -> Seq<u8> {
    if n < 0 {
        seq![105u8, 45] + decimal_bytes((-n) as nat) + seq![101u8]
    } else {
        seq![105u8] + decimal_bytes(n as nat) + seq![101u8]
    }
}

/// A value as it is written.
pub open spec fn text_of_tree(tree: Tree) -> Seq<u8>
    decreases tree,
{
    match tree {
        Tree::Int(n) => int_text(n),
        Tree::Str(s) => string_text(s),
        Tree::List(items) => seq![108u8] + text_of_items(items),
        Tree::Dict(entries) => seq![100u8] + text_of_entries(entries),
    }
}

/// The items of a list, and the end of the list.
pub open spec fn text_of_items(items: Seq<Tree>) -> Seq<u8>
    decreases items,
{
    if items.len() == 0 {
        seq![101u8]
    } else {
        text_of_tree(items[0]) + text_of_items(items.drop_first())
    }
}

/// The entries of a dictionary, and the end of the dictionary.
pub open spec fn text_of_entries(entries: Seq<(Seq<u8>, Tree)>) -> Seq<u8>
    decreases entries,
{
    if entries.len() == 0 {
        seq![101u8]
    } else {
        string_text(entries[0].0) + text_of_tree(entries[0].1) + text_of_entries(
            entries.drop_first(),
        )
    }
}

/// What a value that was written is to be read as.
pub open spec fn meaning(tree: Tree) -> BVal
    decreases tree,
{
    match tree {
        Tree::Int(n) => BVal::Int(n),
        Tree::Str(s) => BVal::Str(s),
        Tree::List(items) => BVal::List(meaning_of_items(items)),
        Tree::Dict(entries) => BVal::Dict(
            dict_of(meaning_of_entries(entries)),
            text_of_tree(tree),
        ),
    }
}

pub open spec fn meaning_of_items(items: Seq<Tree>) -> Seq<BVal>
    decreases items,
{
    if items.len() == 0 {
        Seq::empty()
    } else {
        seq![meaning(items[0])] + meaning_of_items(items.drop_first())
    }
}

pub open spec fn meaning_of_entries(entries: Seq<(Seq<u8>, Tree)>) -> Seq<(Seq<u8>, BVal)>
    decreases entries,
{
    if entries.len() == 0 {
        Seq::empty()
    } else {
        seq![(entries[0].0, meaning(entries[0].1))] + meaning_of_entries(entries.drop_first())
    }
}

/// Whether the integers of a value fit a machine word.
pub open spec fn readable(tree: Tree) -> bool
    decreases tree,
{
    match tree {
        Tree::Int(n) => -isize::MAX <= n <= isize::MAX,
        Tree::Str(s) => true,
        Tree::List(items) => readable_items(items),
        Tree::Dict(entries) => readable_entries(entries),
    }
}

pub open spec fn readable_items(items: Seq<Tree>) -> bool
    decreases items,
{
    items.len() == 0 || readable(items[0]) && readable_items(items.drop_first())
}

pub open spec fn readable_entries(entries: Seq<(Seq<u8>, Tree)>) -> bool
    decreases entries,
{
    entries.len() == 0 || readable(entries[0].1) && readable_entries(entries.drop_first())
}

pub proof fn lemma_decimal_bytes(n: nat)
    ensures
        decimal_bytes(n).len() > 0,
        forall|i: int| 0 <= i < decimal_bytes(n).len() ==> is_digit(#[trigger] decimal_bytes(n)[i]),
        decimal_value(decimal_bytes(n)) == n,
    decreases n,
{
    let bytes = decimal_bytes(n);
    if n < 10 {
        assert(bytes.drop_last() =~= Seq::empty());
        assert(decimal_value(bytes.drop_last()) == 0);
    } else {
        lemma_decimal_bytes(n / 10);
        let front = decimal_bytes(n / 10);
        assert(bytes.drop_last() =~= front);
        assert forall|i: int| 0 <= i < bytes.len() implies is_digit(#[trigger] bytes[i]) by {
            if i < front.len() {
                assert(bytes[i] == front[i]);
            }
        }
    }
}

/// Digits that are followed by something else are the whole run of digits.
pub proof fn lemma_run_of_digits(buf: Seq<u8>, pos: int, digits: Seq<u8>)
    requires
        0 <= pos,
        pos + digits.len() < buf.len(),
        buf.subrange(pos, pos + digits.len()) == digits,
        forall|i: int| 0 <= i < digits.len() ==> is_digit(#[trigger] digits[i]),
        !is_digit(buf[pos + digits.len()]),
    ensures
        digit_run(buf, pos) == digits.len(),
        number_at(buf, pos) == decimal_value(digits),
    decreases digits.len(),
{
    if digits.len() > 0 {
        assert(digits[0] == buf[pos]);
        let rest = digits.drop_first();
        let there = buf.subrange(pos + 1, pos + 1 + rest.len());
        assert forall|i: int| 0 <= i < rest.len() implies #[trigger] there[i] == rest[i] by {
            assert(digits[i + 1] == buf[pos + 1 + i]);
        }
        assert(there =~= rest);
        assert forall|i: int| 0 <= i < rest.len() implies is_digit(#[trigger] rest[i]) by {
            assert(rest[i] == digits[i + 1]);
        }
        lemma_run_of_digits(buf, pos + 1, rest);
    }
}

proof fn lemma_string_text(s: Seq<u8>, behind: Seq<u8>)
    requires
        (string_text(s) + behind).len() <= usize::MAX,
    ensures
        string_at(string_text(s) + behind, 0) == Ok::<(Seq<u8>, int), ParseError>(
            (s, string_text(s).len() as int),
        ),
        is_digit((string_text(s) + behind)[0]),
{
    let buf = string_text(s) + behind;
    let digits = decimal_bytes(s.len());
    lemma_decimal_bytes(s.len());
    assert(buf.subrange(0, digits.len() as int) =~= digits);
    assert(digits[0] == buf[0]);
    lemma_run_of_digits(buf, 0, digits);
    let start = digits.len() as int + 1;
    assert(buf.subrange(start, start + s.len()) =~= s);
}

proof fn lemma_int_text(n: int, behind: Seq<u8>)
    requires
        -isize::MAX <= n <= isize::MAX,
    ensures
        value_at(int_text(n) + behind, 0) == Ok::<(BVal, int), ParseError>(
            (BVal::Int(n), int_text(n).len() as int),
        ),
{
    let buf = int_text(n) + behind;
    let digits = decimal_bytes(
        (if n < 0 {
            -n
        } else {
            n
        }) as nat,
    );
    lemma_decimal_bytes(
        (if n < 0 {
            -n
        } else {
            n
        }) as nat,
    );
    let start = if n < 0 {
        2int
    } else {
        1int
    };
    assert(buf.subrange(start, start + digits.len()) =~= digits);
    assert(digits[0] == buf[start]);
    lemma_run_of_digits(buf, start, digits);
}

proof fn lemma_tree_text(tree: Tree, behind: Seq<u8>)
    requires
        readable(tree),
        (text_of_tree(tree) + behind).len() <= usize::MAX,
    ensures
        value_at(text_of_tree(tree) + behind, 0) == Ok::<(BVal, int), ParseError>(
            (meaning(tree), text_of_tree(tree).len() as int),
        ),
        text_of_tree(tree).len() > 0,
        text_of_tree(tree)[0] != 101,
    decreases tree,
{
    let text = text_of_tree(tree);
    let buf = text + behind;
    match tree {
        Tree::Int(n) => {
            lemma_int_text(n, behind);
        },
        Tree::Str(s) => {
            lemma_string_text(s, behind);
            lemma_decimal_bytes(s.len());
            assert(text[0] == decimal_bytes(s.len())[0]);
        },
        Tree::List(items) => {
            let inner = text_of_items(items);
            lemma_items_text(items, behind);
            assert(stands_at(inner + behind, 0, inner.len() as int, buf, 1)) by {
                assert forall|i: int| 0 <= i < inner.len() implies #[trigger] (inner + behind)[i]
                    == buf[1 + (i - 0)] by {
                    assert(buf[1 + i] == text[1 + i]);
                }
            }
            lemma_items_local(inner + behind, 0, buf, 1, inner.len() as int);
        },
        Tree::Dict(entries) => {
            let inner = text_of_entries(entries);
            lemma_entries_text(entries, behind);
            assert(stands_at(inner + behind, 0, inner.len() as int, buf, 1)) by {
                assert forall|i: int| 0 <= i < inner.len() implies #[trigger] (inner + behind)[i]
                    == buf[1 + (i - 0)] by {
                    assert(buf[1 + i] == text[1 + i]);
                }
            }
            lemma_entries_local(inner + behind, 0, buf, 1, inner.len() as int);
            assert(buf.subrange(0, text.len() as int) =~= text);
        },
    }
}

proof fn lemma_items_text(items: Seq<Tree>, behind: Seq<u8>)
    requires
        readable_items(items),
        (text_of_items(items) + behind).len() <= usize::MAX,
    ensures
        items_at(text_of_items(items) + behind, 0) == Ok::<(Seq<BVal>, int), ParseError>(
            (meaning_of_items(items), text_of_items(items).len() as int),
        ),
    decreases items,
{
    let text = text_of_items(items);
    let buf = text + behind;
    if items.len() > 0 {
        let first = text_of_tree(items[0]);
        let rest = text_of_items(items.drop_first());
        assert(buf =~= first + (rest + behind));
        lemma_tree_text(items[0], rest + behind);
        lemma_items_text(items.drop_first(), behind);
        assert(buf[0] == first[0]);
        assert(stands_at(rest + behind, 0, rest.len() as int, buf, first.len() as int)) by {
            assert forall|i: int| 0 <= i < rest.len() implies #[trigger] (rest + behind)[i]
                == buf[first.len() + (i - 0)] by {}
        }
        lemma_items_local(rest + behind, 0, buf, first.len() as int, rest.len() as int);
    }
}

proof fn lemma_entries_text(entries: Seq<(Seq<u8>, Tree)>, behind: Seq<u8>)
    requires
        readable_entries(entries),
        (text_of_entries(entries) + behind).len() <= usize::MAX,
    ensures
        entries_at(text_of_entries(entries) + behind, 0) == Ok::<
            (Seq<(Seq<u8>, BVal)>, int),
            ParseError,
        >((meaning_of_entries(entries), text_of_entries(entries).len() as int)),
    decreases entries,
{
    let text = text_of_entries(entries);
    let buf = text + behind;
    if entries.len() > 0 {
        let (key, tree) = entries[0];
        let first = string_text(key);
        let second = text_of_tree(tree);
        let rest = text_of_entries(entries.drop_first());
        assert(buf =~= first + (second + rest + behind));
        lemma_string_text(key, second + rest + behind);
        lemma_tree_text(tree, rest + behind);
        lemma_entries_text(entries.drop_first(), behind);
        let after_key = first.len() as int;
        let tail = second + (rest + behind);
        assert(stands_at(tail, 0, second.len() as int, buf, after_key)) by {
            assert forall|i: int| 0 <= i < second.len() implies #[trigger] tail[i] == buf[after_key
                + (i - 0)] by {}
        }
        lemma_value_local(tail, 0, buf, after_key, second.len() as int);
        let next = after_key + second.len();
        assert(stands_at(rest + behind, 0, rest.len() as int, buf, next)) by {
            assert forall|i: int| 0 <= i < rest.len() implies #[trigger] (rest + behind)[i]
                == buf[next + (i - 0)] by {}
        }
        lemma_entries_local(rest + behind, 0, buf, next, rest.len() as int);
    }
}

/// Every value that can be written is read back as what it means, whatever
/// follows it.
pub proof fn law_written_is_read(tree: Tree, behind: Seq<u8>)
    requires
        readable(tree),
        (text_of_tree(tree) + behind).len() <= usize::MAX,
    ensures
        parsed(text_of_tree(tree) + behind) == Ok::<BVal, ParseError>(meaning(tree)),
{
    lemma_tree_text(tree, behind);
}

} // verus!
