//! Laws of the grammar: proved statements relating the specification
//! functions across rules, stated over whole classes of inputs.

use vstd::prelude::*;
use crate::lex::{
    find_from, is_ws_char, lemma_find_from, lemma_trim_no_ws_ends, matches_at, trim,
};
use crate::parser::{classify_interior, item_close, spec_data, spec_item, spec_items, ParseError};
use crate::{fields_map, DataModel, ItemModel};

verus! {

/// A hit that `find_from` must return: `pat` occurs at `c` and nowhere
/// earlier at or after `from`.
proof fn lemma_find_pin(s: Seq<char>, pat: Seq<char>, from: int, c: int)
    requires
        0 <= from,
        pat.len() > 0,
        matches_at(s, pat, c),
        from <= c,
        forall|k: int| from <= k < c ==> !matches_at(s, pat, k),
    ensures
        find_from(s, pat, from) == Option::Some(c),
{
    lemma_find_from(s, pat, from);
}

/// A miss that `find_from` must report: `pat` occurs nowhere at or after
/// `from`.
proof fn lemma_find_pin_none(s: Seq<char>, pat: Seq<char>, from: int)
    requires
        0 <= from,
        pat.len() > 0,
        forall|k: int| from <= k ==> !matches_at(s, pat, k),
    ensures
        find_from(s, pat, from) is None,
{
    lemma_find_from(s, pat, from);
}

/// A match of a pattern pins the characters under its window.
proof fn lemma_matches_chars(s: Seq<char>, pat: Seq<char>, k: int)
    requires
        matches_at(s, pat, k),
    ensures
        forall|j: int| 0 <= j < pat.len() ==> s[k + j] == pat[j],
{
    assert forall|j: int| 0 <= j < pat.len() implies s[k + j] == pat[j] by {
        assert(s.subrange(k, k + pat.len())[j] == s[k + j]);
    }
}

/// Law: parsing the bracketed token `[name]`, for any non-empty `name`
/// holding no `]` and no `|`, yields `Single` of the trimmed text, which
/// never starts or ends with whitespace, and consumes the whole token.
pub proof fn lemma_item_single(name: Seq<char>)
    requires
        name.len() > 0,
        forall|k: int| 0 <= k < name.len() ==> name[k] != ']' && name[k] != '|',
    ensures
        spec_item(seq!['['] + name + seq![']'], 0) == Result::Ok::<_, ParseError>(
            (ItemModel::Single(trim(name)), name.len() + 2 as int),
        ),
        trim(name).len() > 0 ==> !is_ws_char(trim(name)[0]) && !is_ws_char(
            trim(name)[trim(name).len() - 1],
        ),
{
    let s = seq!['['] + name + seq![']'];
    let ln = name.len() as int;
    assert(s.len() == ln + 2);
    assert(forall|k: int| 1 <= k < ln + 1 ==> s[k] == name[k - 1]);
    assert(s[ln + 1] == ']');
    assert forall|k: int| 1 <= k implies !matches_at(s, seq![']', '\n'], k) by {
        if matches_at(s, seq![']', '\n'], k) {
            lemma_matches_chars(s, seq![']', '\n'], k);
            assert(s[k] == ']');
        }
    }
    assert forall|k: int| 1 <= k implies !matches_at(s, seq![']', '\r', '\n'], k) by {
        if matches_at(s, seq![']', '\r', '\n'], k) {
            lemma_matches_chars(s, seq![']', '\r', '\n'], k);
            assert(s[k] == ']');
        }
    }
    lemma_find_pin_none(s, seq![']', '\n'], 1);
    lemma_find_pin_none(s, seq![']', '\r', '\n'], 1);
    assert(s.subrange(ln + 1, ln + 2) =~= seq![']']);
    assert forall|k: int| 1 <= k < ln + 1 implies !matches_at(s, seq![']'], k) by {
        if matches_at(s, seq![']'], k) {
            lemma_matches_chars(s, seq![']'], k);
            assert(s[k + 0] == seq![']'][0]);
            assert(s[k] == ']');
        }
    }
    lemma_find_pin(s, seq![']'], 1, ln + 1);
    assert(item_close(s, 0) == Option::Some(ln + 1));
    let interior = s.subrange(1, ln + 1);
    assert(interior =~= name);
    assert forall|k: int| 0 <= k implies !matches_at(name, seq!['|'], k) by {
        if matches_at(name, seq!['|'], k) {
            lemma_matches_chars(name, seq!['|'], k);
            assert(name[k + 0] == seq!['|'][0]);
            assert(name[k] == '|');
        }
    }
    lemma_find_pin_none(name, seq!['|'], 0);
    assert(classify_interior(name) == ItemModel::Single(trim(name)));
    lemma_trim_no_ws_ends(name);
}

/// Law: parsing the bracketed token `[name|value]`, for any `name` holding
/// no `]` and no `|` and any `value` holding no `]`, yields `Named` of the
/// trimmed name and the trimmed value, and consumes the whole token.
pub proof fn lemma_item_named(name: Seq<char>, value: Seq<char>)
    requires
        forall|k: int| 0 <= k < name.len() ==> name[k] != ']' && name[k] != '|',
        forall|k: int| 0 <= k < value.len() ==> value[k] != ']',
    ensures
        spec_item(seq!['['] + name + seq!['|'] + value + seq![']'], 0) == Result::Ok::<
            _,
            ParseError,
        >((ItemModel::Named(trim(name), trim(value)), name.len() + value.len() + 3 as int)),
{
    let s = seq!['['] + name + seq!['|'] + value + seq![']'];
    let ln = name.len() as int;
    let lv = value.len() as int;
    assert(s.len() == ln + lv + 3);
    assert(s[0] == '[');
    assert(forall|k: int| 1 <= k < ln + 1 ==> s[k] == name[k - 1]);
    assert(s[ln + 1] == '|');
    assert(forall|k: int| ln + 2 <= k < ln + lv + 2 ==> s[k] == value[k - ln - 2]);
    assert(s[ln + lv + 2] == ']');
    assert forall|k: int| 1 <= k implies !matches_at(s, seq![']', '\n'], k) by {
        if matches_at(s, seq![']', '\n'], k) {
            lemma_matches_chars(s, seq![']', '\n'], k);
            assert(s[k] == ']');
        }
    }
    assert forall|k: int| 1 <= k implies !matches_at(s, seq![']', '\r', '\n'], k) by {
        if matches_at(s, seq![']', '\r', '\n'], k) {
            lemma_matches_chars(s, seq![']', '\r', '\n'], k);
            assert(s[k] == ']');
        }
    }
    lemma_find_pin_none(s, seq![']', '\n'], 1);
    lemma_find_pin_none(s, seq![']', '\r', '\n'], 1);
    assert(s.subrange(ln + lv + 2, ln + lv + 3) =~= seq![']']);
    assert forall|k: int| 1 <= k < ln + lv + 2 implies !matches_at(s, seq![']'], k) by {
        if matches_at(s, seq![']'], k) {
            lemma_matches_chars(s, seq![']'], k);
            assert(s[k + 0] == seq![']'][0]);
            assert(s[k] == ']');
        }
    }
    lemma_find_pin(s, seq![']'], 1, ln + lv + 2);
    assert(item_close(s, 0) == Option::Some(ln + lv + 2));
    let interior = s.subrange(1, ln + lv + 2);
    assert(interior =~= name + seq!['|'] + value);
    assert(interior.subrange(ln, ln + 1) =~= seq!['|']);
    assert forall|k: int| 0 <= k < ln implies !matches_at(interior, seq!['|'], k) by {
        if matches_at(interior, seq!['|'], k) {
            lemma_matches_chars(interior, seq!['|'], k);
            assert(interior[k + 0] == seq!['|'][0]);
            assert(interior[k] == '|');
            assert(interior[k] == name[k]);
        }
    }
    lemma_find_pin(interior, seq!['|'], 0, ln);
    assert(interior.take(ln) =~= name);
    assert(interior.skip(ln + 1) =~= value);
    assert(classify_interior(interior) == ItemModel::Named(trim(name), trim(value)));
}

/// A single-token item read at a position inside a larger text: when the
/// text after the opening bracket admits no bracket-and-line-break match at
/// all, the item grammar closes at the token's own bracket and yields
/// `Single` of the trimmed text.
proof fn lemma_item_single_at(s: Seq<char>, pos: int, name: Seq<char>)
    requires
        0 <= pos,
        pos + name.len() + 2 <= s.len(),
        name.len() > 0,
        s[pos] == '[',
        forall|k: int| pos + 1 <= k < pos + 1 + name.len() ==> s[k] == name[k - pos - 1],
        s[pos + 1 + name.len()] == ']',
        forall|k: int| 0 <= k < name.len() ==> name[k] != ']' && name[k] != '|',
        forall|k: int| pos + 1 <= k ==> !matches_at(s, seq![']', '\n'], k),
        forall|k: int| pos + 1 <= k ==> !matches_at(s, seq![']', '\r', '\n'], k),
    ensures
        spec_item(s, pos) == Result::Ok::<_, ParseError>(
            (ItemModel::Single(trim(name)), pos + name.len() + 2),
        ),
{
    let close = pos + 1 + name.len();
    lemma_find_pin_none(s, seq![']', '\n'], pos + 1);
    lemma_find_pin_none(s, seq![']', '\r', '\n'], pos + 1);
    assert(s.subrange(close, close + 1) =~= seq![']']);
    assert(matches_at(s, seq![']'], close));
    assert forall|k: int| pos + 1 <= k < close implies !matches_at(s, seq![']'], k) by {
        if matches_at(s, seq![']'], k) {
            lemma_matches_chars(s, seq![']'], k);
            assert(s[k + 0] == seq![']'][0]);
            assert(s[k] == ']');
            assert(s[k] == name[k - pos - 1]);
        }
    }
    lemma_find_pin(s, seq![']'], pos + 1, close);
    assert(item_close(s, pos) == Option::Some(close));
    let interior = s.subrange(pos + 1, close);
    assert(interior =~= name);
    assert forall|k: int| 0 <= k implies !matches_at(name, seq!['|'], k) by {
        if matches_at(name, seq!['|'], k) {
            lemma_matches_chars(name, seq!['|'], k);
            assert(name[k + 0] == seq!['|'][0]);
            assert(name[k] == '|');
        }
    }
    lemma_find_pin_none(name, seq!['|'], 0);
    assert(classify_interior(name) == ItemModel::Single(trim(name)));
}

/// Whitespace that holds no part of a line terminator: spaces and tabs.
pub open spec fn plain_ws(w: Seq<char>) -> bool {
    forall|k: int| 0 <= k < w.len() ==> w[k] == ' ' || w[k] == '\t'
}

/// A token text fit to stand bracketed inside an array: non-empty and free
/// of the delimiters that would move a bracket or brace match.
pub open spec fn plain_name(a: Seq<char>) -> bool {
    a.len() > 0 && forall|k: int|
        0 <= k < a.len() ==> a[k] != ']' && a[k] != '|' && a[k] != '}' && a[k] != '\n'
            && a[k] != '\r'
}

/// Law: a brace-delimited array of two bracketed tokens parses to exactly
/// those two items, whatever runs of spaces and tabs stand around them.
/// Separators holding line breaks fall under the closing-bracket tie-break
/// and are not covered here.
#[verifier::rlimit(60)]
pub proof fn lemma_array_two_singles(
    w0: Seq<char>,
    a: Seq<char>,
    w1: Seq<char>,
    b: Seq<char>,
    w2: Seq<char>,
)
    requires
        plain_ws(w0),
        plain_ws(w1),
        plain_ws(w2),
        plain_name(a),
        plain_name(b),
    ensures
        ({
            let inner = w0 + (seq!['['] + a + seq![']']) + w1 + (seq!['['] + b + seq![']'])
                + w2;
            let s = seq!['{'] + inner + seq!['}'];
            spec_data(s, 0) == Result::Ok::<_, ParseError>(
                (
                    DataModel::Array(
                        seq![ItemModel::Single(trim(a)), ItemModel::Single(trim(b))],
                    ),
                    s.len() as int,
                ),
            )
        }),
{
    let inner = w0 + (seq!['['] + a + seq![']']) + w1 + (seq!['['] + b + seq![']']) + w2;
    let s = seq!['{'] + inner + seq!['}'];
    let p0 = w0.len() as int;
    let la = a.len() as int;
    let aclose = p0 + la + 1;
    let q = aclose + 1 + w1.len();
    let lb = b.len() as int;
    let bclose = q + lb + 1;
    let il = inner.len() as int;
    assert(il == bclose + 1 + w2.len());
    assert(forall|k: int| 0 <= k < p0 ==> inner[k] == w0[k]);
    assert(inner[p0] == '[');
    assert(forall|k: int| p0 + 1 <= k < aclose ==> inner[k] == a[k - p0 - 1]);
    assert(inner[aclose] == ']');
    assert(forall|k: int| aclose + 1 <= k < q ==> inner[k] == w1[k - aclose - 1]);
    assert(inner[q] == '[');
    assert(forall|k: int| q + 1 <= k < bclose ==> inner[k] == b[k - q - 1]);
    assert(inner[bclose] == ']');
    assert(forall|k: int| bclose + 1 <= k < il ==> inner[k] == w2[k - bclose - 1]);
    assert forall|k: int| 0 <= k < il && inner[k] == ']' implies k == aclose || k == bclose
        by {}
    assert forall|k: int| 0 <= k implies !matches_at(inner, seq![']', '\n'], k) by {
        if matches_at(inner, seq![']', '\n'], k) {
            lemma_matches_chars(inner, seq![']', '\n'], k);
            assert(inner[k + 0] == seq![']', '\n'][0]);
            assert(inner[k + 1] == seq![']', '\n'][1]);
            assert(inner[k] == ']');
            assert(inner[k + 1] == '\n');
        }
    }
    assert forall|k: int| 0 <= k implies !matches_at(inner, seq![']', '\r', '\n'], k) by {
        if matches_at(inner, seq![']', '\r', '\n'], k) {
            lemma_matches_chars(inner, seq![']', '\r', '\n'], k);
            assert(inner[k + 0] == seq![']', '\r', '\n'][0]);
            assert(inner[k + 1] == seq![']', '\r', '\n'][1]);
            assert(inner[k] == ']');
            assert(inner[k + 1] == '\r');
        }
    }
    assert(forall|k: int| 1 <= k < il + 1 ==> s[k] == inner[k - 1]);
    assert(s[0] == '{');
    assert(s[il + 1] == '}');
    assert(s.subrange(il + 1, il + 2) =~= seq!['}']);
    assert(matches_at(s, seq!['}'], il + 1));
    assert forall|k: int| 1 <= k < il + 1 implies !matches_at(s, seq!['}'], k) by {
        if matches_at(s, seq!['}'], k) {
            lemma_matches_chars(s, seq!['}'], k);
            assert(s[k + 0] == seq!['}'][0]);
            assert(s[k] == '}');
            assert(s[k] == inner[k - 1]);
        }
    }
    lemma_find_pin(s, seq!['}'], 1, il + 1);
    assert(s.subrange(1, il + 1) =~= inner);
    crate::lex::lemma_skip_ws_pin(inner, 0, p0);
    lemma_item_single_at(inner, p0, a);
    crate::lex::lemma_skip_ws_pin(inner, aclose + 1, q);
    lemma_item_single_at(inner, q, b);
    crate::lex::lemma_skip_ws_pin(inner, bclose + 1, il);
    assert(spec_items(inner, bclose + 1) == Result::Ok::<_, ParseError>(
        Seq::<ItemModel>::empty(),
    ));
    assert(spec_items(inner, aclose + 1) == Result::Ok::<_, ParseError>(
        seq![ItemModel::Single(trim(b))] + Seq::<ItemModel>::empty(),
    ));
    assert(seq![ItemModel::Single(trim(b))] + Seq::<ItemModel>::empty()
        =~= seq![ItemModel::Single(trim(b))]);
    assert(spec_items(inner, 0) == Result::Ok::<_, ParseError>(
        seq![ItemModel::Single(trim(a))] + seq![ItemModel::Single(trim(b))],
    ));
    assert(seq![ItemModel::Single(trim(a))] + seq![ItemModel::Single(trim(b))]
        =~= seq![ItemModel::Single(trim(a)), ItemModel::Single(trim(b))]);
    assert(s.len() == il + 2);
}

/// A single-token item whose closing bracket is immediately followed by a
/// line feed, with no closing bracket anywhere in the token text: the
/// bracket-and-line-break rule closes the item at its own bracket.
proof fn lemma_item_single_at_nl(s: Seq<char>, pos: int, name: Seq<char>)
    requires
        0 <= pos,
        pos + name.len() + 3 <= s.len(),
        name.len() > 0,
        s[pos] == '[',
        forall|k: int| pos + 1 <= k < pos + 1 + name.len() ==> s[k] == name[k - pos - 1],
        s[pos + 1 + name.len()] == ']',
        s[pos + 2 + name.len()] == '\n',
        forall|k: int| 0 <= k < name.len() ==> name[k] != ']' && name[k] != '|',
    ensures
        spec_item(s, pos) == Result::Ok::<_, ParseError>(
            (ItemModel::Single(trim(name)), pos + name.len() + 2),
        ),
{
    let close = pos + 1 + name.len();
    assert(s.subrange(close, close + 2) =~= seq![']', '\n']);
    assert(matches_at(s, seq![']', '\n'], close));
    assert forall|k: int| pos + 1 <= k < close implies !matches_at(s, seq![']', '\n'], k) by {
        if matches_at(s, seq![']', '\n'], k) {
            lemma_matches_chars(s, seq![']', '\n'], k);
            assert(s[k + 0] == seq![']', '\n'][0]);
            assert(s[k] == ']');
            assert(s[k] == name[k - pos - 1]);
        }
    }
    lemma_find_pin(s, seq![']', '\n'], pos + 1, close);
    assert(item_close(s, pos) == Option::Some(close));
    let interior = s.subrange(pos + 1, close);
    assert(interior =~= name);
    assert forall|k: int| 0 <= k implies !matches_at(name, seq!['|'], k) by {
        if matches_at(name, seq!['|'], k) {
            lemma_matches_chars(name, seq!['|'], k);
            assert(name[k + 0] == seq!['|'][0]);
            assert(name[k] == '|');
        }
    }
    lemma_find_pin_none(name, seq!['|'], 0);
    assert(classify_interior(name) == ItemModel::Single(trim(name)));
}

/// Law: the line-oriented companion of `lemma_array_two_singles`. When each
/// token's closing bracket is immediately followed by a line feed, any runs
/// of whitespace may stand around the tokens — line breaks included — and
/// the array still parses to exactly the two items.
#[verifier::rlimit(60)]
pub proof fn lemma_array_two_singles_lines(
    w0: Seq<char>,
    a: Seq<char>,
    w1: Seq<char>,
    b: Seq<char>,
    w2: Seq<char>,
)
    requires
        forall|k: int| 0 <= k < w0.len() ==> is_ws_char(w0[k]),
        forall|k: int| 0 <= k < w1.len() ==> is_ws_char(w1[k]),
        forall|k: int| 0 <= k < w2.len() ==> is_ws_char(w2[k]),
        w1.len() > 0 && w1[0] == '\n',
        w2.len() > 0 && w2[0] == '\n',
        plain_name(a),
        plain_name(b),
    ensures
        ({
            let inner = w0 + (seq!['['] + a + seq![']']) + w1 + (seq!['['] + b + seq![']'])
                + w2;
            let s = seq!['{'] + inner + seq!['}'];
            spec_data(s, 0) == Result::Ok::<_, ParseError>(
                (
                    DataModel::Array(
                        seq![ItemModel::Single(trim(a)), ItemModel::Single(trim(b))],
                    ),
                    s.len() as int,
                ),
            )
        }),
{
    let inner = w0 + (seq!['['] + a + seq![']']) + w1 + (seq!['['] + b + seq![']']) + w2;
    let s = seq!['{'] + inner + seq!['}'];
    let p0 = w0.len() as int;
    let la = a.len() as int;
    let aclose = p0 + la + 1;
    let q = aclose + 1 + w1.len();
    let lb = b.len() as int;
    let bclose = q + lb + 1;
    let il = inner.len() as int;
    assert(il == bclose + 1 + w2.len());
    assert(forall|k: int| 0 <= k < p0 ==> inner[k] == w0[k]);
    assert(inner[p0] == '[');
    assert(forall|k: int| p0 + 1 <= k < aclose ==> inner[k] == a[k - p0 - 1]);
    assert(inner[aclose] == ']');
    assert(forall|k: int| aclose + 1 <= k < q ==> inner[k] == w1[k - aclose - 1]);
    assert(inner[q] == '[');
    assert(forall|k: int| q + 1 <= k < bclose ==> inner[k] == b[k - q - 1]);
    assert(inner[bclose] == ']');
    assert(forall|k: int| bclose + 1 <= k < il ==> inner[k] == w2[k - bclose - 1]);
    assert(inner[aclose + 1] == '\n');
    assert(inner[bclose + 1] == '\n');
    assert(forall|k: int| 1 <= k < il + 1 ==> s[k] == inner[k - 1]);
    assert(s[0] == '{');
    assert(s[il + 1] == '}');
    assert(s.subrange(il + 1, il + 2) =~= seq!['}']);
    assert(matches_at(s, seq!['}'], il + 1));
    assert forall|k: int| 1 <= k < il + 1 implies !matches_at(s, seq!['}'], k) by {
        if matches_at(s, seq!['}'], k) {
            lemma_matches_chars(s, seq!['}'], k);
            assert(s[k + 0] == seq!['}'][0]);
            assert(s[k] == '}');
            assert(s[k] == inner[k - 1]);
        }
    }
    lemma_find_pin(s, seq!['}'], 1, il + 1);
    assert(s.subrange(1, il + 1) =~= inner);
    crate::lex::lemma_skip_ws_pin(inner, 0, p0);
    lemma_item_single_at_nl(inner, p0, a);
    crate::lex::lemma_skip_ws_pin(inner, aclose + 1, q);
    lemma_item_single_at_nl(inner, q, b);
    crate::lex::lemma_skip_ws_pin(inner, bclose + 1, il);
    assert(spec_items(inner, bclose + 1) == Result::Ok::<_, ParseError>(
        Seq::<ItemModel>::empty(),
    ));
    assert(spec_items(inner, aclose + 1) == Result::Ok::<_, ParseError>(
        seq![ItemModel::Single(trim(b))] + Seq::<ItemModel>::empty(),
    ));
    assert(seq![ItemModel::Single(trim(b))] + Seq::<ItemModel>::empty()
        =~= seq![ItemModel::Single(trim(b))]);
    assert(spec_items(inner, 0) == Result::Ok::<_, ParseError>(
        seq![ItemModel::Single(trim(a))] + seq![ItemModel::Single(trim(b))],
    ));
    assert(seq![ItemModel::Single(trim(a))] + seq![ItemModel::Single(trim(b))]
        =~= seq![ItemModel::Single(trim(a)), ItemModel::Single(trim(b))]);
    assert(s.len() == il + 2);
}

/// Law: a scalar line is kept as written. For any input that does not open
/// an array and holds no line terminator, the data grammar yields exactly
/// `Scalar` of the whole input. This also gives the scalar half of the
/// round trip: re-parsing the text of such a scalar returns it unchanged.
pub proof fn lemma_data_scalar(s: Seq<char>)
    requires
        s.len() == 0 || s[0] != '{',
        forall|k: int| 0 <= k < s.len() ==> s[k] != '\n',
    ensures
        spec_data(s, 0) == Result::Ok::<_, ParseError>(
            (DataModel::Scalar(s), s.len() as int),
        ),
{
    assert forall|k: int| 0 <= k implies !matches_at(s, seq!['\n'], k) by {
        if matches_at(s, seq!['\n'], k) {
            lemma_matches_chars(s, seq!['\n'], k);
            assert(s[k + 0] == seq!['\n'][0]);
            assert(s[k] == '\n');
        }
    }
    lemma_find_pin_none(s, seq!['\n'], 0);
    assert(s.subrange(0, s.len() as int) =~= s);
}

/// Law: the later of two fields with one key wins. In the mapping a field
/// list denotes, the value under a key is the value of its last occurrence:
/// any earlier occurrence of the same key is overwritten.
pub proof fn lemma_later_field_wins(fs: Seq<(Seq<char>, DataModel)>, i: int)
    requires
        0 <= i < fs.len(),
        forall|j: int| i < j < fs.len() ==> fs[j].0 != fs[i].0,
    ensures
        fields_map(fs).contains_key(fs[i].0),
        fields_map(fs)[fs[i].0] == fs[i].1,
    decreases fs.len(),
{
    if i < fs.len() - 1 {
        lemma_later_field_wins(fs.drop_last(), i);
    }
}

/// A key that occurs in no field is absent from the mapping.
pub proof fn lemma_absent_field(fs: Seq<(Seq<char>, DataModel)>, key: Seq<char>)
    requires
        forall|j: int| 0 <= j < fs.len() ==> fs[j].0 != key,
    ensures
        !fields_map(fs).contains_key(key),
    decreases fs.len(),
{
    if fs.len() > 0 {
        lemma_absent_field(fs.drop_last(), key);
    }
}

/// The textual reconstruction of an item.
pub open spec fn item_text(it: ItemModel) -> Seq<char> {
    match it {
        ItemModel::Single(v) => seq!['['] + v + seq![']'],
        ItemModel::Named(n, v) => seq!['['] + n + seq!['|'] + v + seq![']'],
        ItemModel::Empty => seq!['['] + seq![']'],
    }
}

/// When an item's reconstruction is unambiguous: its texts contain no
/// delimiter that could move the closing bracket or the name separator, and
/// are already trimmed.
pub open spec fn item_unambiguous(it: ItemModel) -> bool {
    match it {
        ItemModel::Single(v) => v.len() > 0 && v == trim(v) && forall|k: int|
            0 <= k < v.len() ==> v[k] != ']' && v[k] != '|',
        ItemModel::Named(n, v) => n == trim(n) && v == trim(v) && (forall|k: int|
            0 <= k < n.len() ==> n[k] != ']' && n[k] != '|') && (forall|k: int|
            0 <= k < v.len() ==> v[k] != ']'),
        ItemModel::Empty => true,
    }
}

/// Law: the item round trip. Re-parsing the textual reconstruction of an
/// item, where the reconstruction is unambiguous, yields the same item and
/// consumes the whole text.
pub proof fn lemma_item_roundtrip(it: ItemModel)
    requires
        item_unambiguous(it),
    ensures
        spec_item(item_text(it), 0) == Result::Ok::<_, ParseError>(
            (it, item_text(it).len() as int),
        ),
{
    match it {
        ItemModel::Single(v) => {
            lemma_item_single(v);
        },
        ItemModel::Named(n, v) => {
            lemma_item_named(n, v);
        },
        ItemModel::Empty => {
            let s = seq!['['] + seq![']'];
            assert(s.len() == 2);
            assert(s[0] == '[' && s[1] == ']');
            assert(s.subrange(1, 2) =~= seq![']']);
            assert(matches_at(s, seq![']'], 1));
            lemma_find_pin(s, seq![']'], 1, 1);
            assert(item_close(s, 0) == Option::Some(1int));
            assert(s.subrange(1, 1) =~= Seq::<char>::empty());
            assert(classify_interior(s.subrange(1, 1)) == ItemModel::Empty);
        },
    }
}

} // verus!
