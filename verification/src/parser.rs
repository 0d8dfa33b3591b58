//! The item grammar: parsing one bracketed token.

use vstd::prelude::*;
use crate::lex::{
    find_from, find_str, key_end, key_end_from, lemma_find_from, lemma_key_end_from,
    lemma_line_split_at, lemma_skip_eq_ws_from, lemma_skip_terms_from, lemma_skip_ws_from,
    line_split, line_split_at, match_at, matches_at, skip_eq_ws, skip_eq_ws_from, skip_terms,
    skip_terms_from, skip_ws, skip_ws_from, str_eq, trim, trim_str,
};
use crate::{fields_map, items_view, pairs_view, Data, DataModel, Item, ItemModel, Wiki, WikiModel};

verus! {

/// A structural parse failure: the grammar rule that could not complete.
#[derive(Debug, Clone, Copy, PartialEq, Eq, Structural)]
pub enum ParseError {
    /// The input does not open with the `{{Infobox` prologue.
    NotAnInfobox,
    /// No `}}` closes the envelope.
    UnterminatedEnvelope,
    /// No `}` closes a field's array value.
    UnterminatedArray,
    /// A bracketed item does not open with `[` or has no closing `]`.
    MalformedItem,
    /// A field declaration whose key is empty, or no `|` opens the field.
    MissingKey,
}

/// Where the bracket opened at `pos` closes: the first `]` at or after
/// `pos + 1` that is followed by a line terminator, or failing that the
/// first bare `]`. The tie-break lets item text contain literal `]`
/// characters when the true terminator is adjacent to a line break.
pub open spec fn item_close(s: Seq<char>, pos: int) -> Option<int> {
    match find_from(s, seq![']', '\n'], pos + 1) {
        Option::Some(i) => Option::Some(i),
        Option::None => match find_from(s, seq![']', '\r', '\n'], pos + 1) {
            Option::Some(i) => Option::Some(i),
            Option::None => find_from(s, seq![']'], pos + 1),
        },
    }
}

/// What a bracket interior denotes: empty is `None`, no `|` is a trimmed
/// `Single`, otherwise the parts left and right of the first `|` are the
/// trimmed name and value of a `Named`.
pub open spec fn classify_interior(interior: Seq<char>) -> ItemModel {
    match find_from(interior, seq!['|'], 0) {
        Option::None => if interior.len() == 0 {
            ItemModel::Empty
        } else {
            ItemModel::Single(trim(interior))
        },
        Option::Some(p) => ItemModel::Named(
            trim(interior.take(p)),
            trim(interior.skip(p + 1)),
        ),
    }
}

/// The item grammar at position `pos`: requires `[` at `pos`, finds the
/// closing `]` per `item_close`, and classifies the interior. On success
/// the returned position is just past the closing bracket.
pub open spec fn spec_item(s: Seq<char>, pos: int) -> Result<(ItemModel, int), ParseError> {
    if !(0 <= pos < s.len() && s[pos] == '[') {
        Result::Err(ParseError::MalformedItem)
    } else {
        match item_close(s, pos) {
            Option::None => Result::Err(ParseError::MalformedItem),
            Option::Some(c) => Result::Ok((classify_interior(s.subrange(pos + 1, c)), c + 1)),
        }
    }
}

/// A successful item parse lands strictly past `pos` and within the input.
pub proof fn lemma_spec_item_consumes(s: Seq<char>, pos: int)
    requires
        0 <= pos,
        spec_item(s, pos) is Ok,
    ensures
        pos + 2 <= spec_item(s, pos)->Ok_0.1 <= s.len(),
{
    let c = item_close(s, pos)->Some_0;
    lemma_find_from(s, seq![']', '\n'], pos + 1);
    lemma_find_from(s, seq![']', '\r', '\n'], pos + 1);
    lemma_find_from(s, seq![']'], pos + 1);
}

/// Executable item parse at a position inside `s`.
pub fn item_at(s: &str, pos: usize) -> (r: Result<(Item, usize), ParseError>)
    requires
        pos <= s@.len(),
    ensures
        match r {
            Result::Ok((it, n)) => spec_item(s@, pos as int) == Result::Ok::<_, ParseError>(
                (it@, n as int),
            ) && pos < n <= s@.len(),
            Result::Err(e) => spec_item(s@, pos as int) == Result::Err::<(ItemModel, int), _>(e),
        },
{
    proof {
        reveal_strlit("]\n");
        reveal_strlit("]\r\n");
        reveal_strlit("]");
        reveal_strlit("|");
        assert("]\n"@ =~= seq![']', '\n']);
        assert("]\r\n"@ =~= seq![']', '\r', '\n']);
        assert("]"@ =~= seq![']']);
        assert("|"@ =~= seq!['|']);
    }
    let n = s.unicode_len();
    if pos >= n || s.get_char(pos) != '[' {
        return Result::Err(ParseError::MalformedItem);
    }
    let close = match find_str(s, "]\n", pos + 1) {
        Option::Some(i) => i,
        Option::None => match find_str(s, "]\r\n", pos + 1) {
            Option::Some(i) => i,
            Option::None => match find_str(s, "]", pos + 1) {
                Option::Some(i) => i,
                Option::None => {
                    return Result::Err(ParseError::MalformedItem);
                },
            },
        },
    };
    proof {
        lemma_spec_item_consumes(s@, pos as int);
        lemma_find_from(s@, seq![']'], pos as int + 1);
        lemma_find_from(s@, seq![']', '\n'], pos as int + 1);
        lemma_find_from(s@, seq![']', '\r', '\n'], pos as int + 1);
    }
    let interior = s.substring_char(pos + 1, close);
    let it = classify_exec(interior);
    Result::Ok((it, close + 1))
}

/// Executable interior classification, equal to `classify_interior`.
fn classify_exec(interior: &str) -> (r: Item)
    ensures
        r@ == classify_interior(interior@),
{
    proof {
        reveal_strlit("|");
        assert("|"@ =~= seq!['|']);
    }
    let m = interior.unicode_len();
    match find_str(interior, "|", 0) {
        Option::None => {
            if m == 0 {
                Item::Empty
            } else {
                Item::Single(trim_str(interior))
            }
        },
        Option::Some(p) => {
            proof {
                lemma_find_from(interior@, seq!['|'], 0);
            }
            let name = interior.substring_char(0, p);
            let value = interior.substring_char(p + 1, m);
            proof {
                assert(interior@.subrange(0, p as int) =~= interior@.take(p as int));
                assert(interior@.subrange(p as int + 1, m as int) =~= interior@.skip(
                    p as int + 1,
                ));
            }
            Item::Named(trim_str(name), trim_str(value))
        },
    }
}

/// The items inside an array interior, read from position `i`: any run of
/// whitespace may precede each item, and the items continue until the
/// interior is exhausted. A residue that is not a well-formed item fails
/// with `MalformedItem`.
pub open spec fn spec_items(s: Seq<char>, i: int) -> Result<Seq<ItemModel>, ParseError>
    decreases s.len() - i,
    when 0 <= i <= s.len()
    via spec_items_dec
{
    let j = skip_ws_from(s, i);
    if j >= s.len() {
        Result::Ok(Seq::empty())
    } else {
        match spec_item(s, j) {
            Result::Err(e) => Result::Err(e),
            Result::Ok((iv, n)) => match spec_items(s, n) {
                Result::Err(e) => Result::Err(e),
                Result::Ok(r) => Result::Ok(seq![iv] + r),
            },
        }
    }
}

#[via_fn]
proof fn spec_items_dec(s: Seq<char>, i: int) {
    lemma_skip_ws_from(s, i);
    let j = skip_ws_from(s, i);
    if j < s.len() && spec_item(s, j) is Ok {
        lemma_spec_item_consumes(s, j);
    }
}

/// Executable array-interior parse, equal to `spec_items` from the start
/// of `s`.
fn parse_items(s: &str) -> (r: Result<Vec<Item>, ParseError>)
    ensures
        match r {
            Result::Ok(v) => spec_items(s@, 0) == Result::Ok::<_, ParseError>(items_view(v@)),
            Result::Err(e) => spec_items(s@, 0) == Result::Err::<Seq<ItemModel>, _>(e),
        },
{
    let n = s.unicode_len();
    let mut acc: Vec<Item> = Vec::new();
    let mut i: usize = 0;
    proof {
        assert(items_view(acc@) =~= Seq::<ItemModel>::empty());
    }
    loop
        invariant
            i <= n,
            n == s@.len(),
            match spec_items(s@, i as int) {
                Result::Ok(rest) => spec_items(s@, 0) == Result::Ok::<_, ParseError>(
                    items_view(acc@) + rest,
                ),
                Result::Err(e) => spec_items(s@, 0) == Result::Err::<Seq<ItemModel>, _>(e),
            },
        decreases n - i,
    {
        let j = skip_ws(s, i);
        if j >= n {
            proof {
                assert(spec_items(s@, i as int) == Result::Ok::<_, ParseError>(
                    Seq::<ItemModel>::empty(),
                ));
                assert(items_view(acc@) + Seq::<ItemModel>::empty() =~= items_view(acc@));
            }
            return Result::Ok(acc);
        }
        match item_at(s, j) {
            Result::Err(e) => {
                return Result::Err(e);
            },
            Result::Ok((it, n2)) => {
                proof {
                    assert(spec_items(s@, i as int) matches Result::Ok(rest) ==> rest
                        == seq![it@] + (spec_items(s@, n2 as int)->Ok_0));
                }
                let ghost prev = acc@;
                acc.push(it);
                proof {
                    assert(items_view(acc@) =~= items_view(prev).push(it@));
                    if spec_items(s@, n2 as int) is Ok {
                        let rest2 = spec_items(s@, n2 as int)->Ok_0;
                        assert(items_view(prev) + (seq![it@] + rest2) =~= items_view(acc@)
                            + rest2);
                    }
                }
                i = n2;
            },
        }
    }
}

/// The data grammar at position `pos`: a `{` opens an item array running to
/// the first `}` (`UnterminatedArray` when none closes it); anything else
/// is a scalar holding the rest of the current line, preserved as written.
pub open spec fn spec_data(s: Seq<char>, pos: int) -> Result<(DataModel, int), ParseError> {
    if 0 <= pos < s.len() && s[pos] == '{' {
        match find_from(s, seq!['}'], pos + 1) {
            Option::None => Result::Err(ParseError::UnterminatedArray),
            Option::Some(c) => match spec_items(s.subrange(pos + 1, c), 0) {
                Result::Err(e) => Result::Err(e),
                Result::Ok(items) => Result::Ok((DataModel::Array(items), c + 1)),
            },
        }
    } else {
        let (line, r) = line_split_at(s, pos);
        Result::Ok((DataModel::Scalar(line), r))
    }
}

/// A successful data parse stays within the input and never moves left.
pub proof fn lemma_spec_data_consumes(s: Seq<char>, pos: int)
    requires
        0 <= pos <= s.len(),
        spec_data(s, pos) is Ok,
    ensures
        pos <= spec_data(s, pos)->Ok_0.1 <= s.len(),
{
    if 0 <= pos < s.len() && s[pos] == '{' {
        lemma_find_from(s, seq!['}'], pos + 1);
    } else {
        lemma_line_split_at(s, pos);
    }
}

/// Executable data parse at a position inside `s`.
pub fn data_at(s: &str, pos: usize) -> (r: Result<(Data, usize), ParseError>)
    requires
        pos <= s@.len(),
    ensures
        match r {
            Result::Ok((d, n)) => spec_data(s@, pos as int) == Result::Ok::<_, ParseError>(
                (d@, n as int),
            ) && pos <= n <= s@.len(),
            Result::Err(e) => spec_data(s@, pos as int) == Result::Err::<(DataModel, int), _>(e),
        },
{
    proof {
        reveal_strlit("}");
        assert("}"@ =~= seq!['}']);
    }
    let n = s.unicode_len();
    if pos < n && s.get_char(pos) == '{' {
        match find_str(s, "}", pos + 1) {
            Option::None => Result::Err(ParseError::UnterminatedArray),
            Option::Some(c) => {
                proof {
                    lemma_find_from(s@, seq!['}'], pos as int + 1);
                }
                let interior = s.substring_char(pos + 1, c);
                match parse_items(interior) {
                    Result::Err(e) => Result::Err(e),
                    Result::Ok(items) => Result::Ok((Data::Array(items), c + 1)),
                }
            },
        }
    } else {
        let (line, rest) = line_split(s, pos);
        Result::Ok((Data::Scalar(line), rest))
    }
}

/// The field grammar at position `pos`: a leading `|`, optional whitespace,
/// a non-empty key running to the first `=` or whitespace, a separating run
/// of `=` and whitespace, then a data value. `MissingKey` exactly when no
/// `|` opens the field or the key is empty.
pub open spec fn spec_info(s: Seq<char>, pos: int) -> Result<
    ((Seq<char>, DataModel), int),
    ParseError,
> {
    if !(0 <= pos < s.len() && s[pos] == '|') {
        Result::Err(ParseError::MissingKey)
    } else {
        let j = skip_ws_from(s, pos + 1);
        let ke = key_end_from(s, j);
        if ke == j {
            Result::Err(ParseError::MissingKey)
        } else {
            let v = skip_eq_ws_from(s, ke);
            match spec_data(s, v) {
                Result::Err(e) => Result::Err(e),
                Result::Ok((d, n)) => Result::Ok(((s.subrange(j, ke), d), n)),
            }
        }
    }
}

/// A successful field parse lands strictly past `pos` and within the input.
pub proof fn lemma_spec_info_consumes(s: Seq<char>, pos: int)
    requires
        0 <= pos <= s.len(),
        spec_info(s, pos) is Ok,
    ensures
        pos < spec_info(s, pos)->Ok_0.1 <= s.len(),
{
    lemma_skip_ws_from(s, pos + 1);
    let j = skip_ws_from(s, pos + 1);
    lemma_key_end_from(s, j);
    let ke = key_end_from(s, j);
    lemma_skip_eq_ws_from(s, ke);
    let v = skip_eq_ws_from(s, ke);
    lemma_spec_data_consumes(s, v);
}

/// Executable field parse at a position inside `s`.
pub fn info_at(s: &str, pos: usize) -> (r: Result<((String, Data), usize), ParseError>)
    requires
        pos <= s@.len(),
    ensures
        match r {
            Result::Ok(((k, d), n)) => spec_info(s@, pos as int) == Result::Ok::<_, ParseError>(
                ((k@, d@), n as int),
            ) && pos < n <= s@.len(),
            Result::Err(e) => spec_info(s@, pos as int) == Result::Err::<
                ((Seq<char>, DataModel), int),
                _,
            >(e),
        },
{
    let n = s.unicode_len();
    if pos >= n || s.get_char(pos) != '|' {
        return Result::Err(ParseError::MissingKey);
    }
    let j = skip_ws(s, pos + 1);
    let ke = key_end(s, j);
    if ke == j {
        return Result::Err(ParseError::MissingKey);
    }
    let v = skip_eq_ws(s, ke);
    let key = s.substring_char(j, ke).to_owned();
    match data_at(s, v) {
        Result::Err(e) => Result::Err(e),
        Result::Ok((d, rest)) => {
            proof {
                lemma_spec_info_consumes(s@, pos as int);
            }
            Result::Ok(((key, d), rest))
        },
    }
}

/// The field list of an envelope body, read from position `i`: any run of
/// line terminators, then a field, repeated until the remaining text does
/// not begin a field.
pub open spec fn spec_fields(s: Seq<char>, i: int) -> Result<
    Seq<(Seq<char>, DataModel)>,
    ParseError,
>
    decreases s.len() - i,
    when 0 <= i <= s.len()
    via spec_fields_dec
{
    let j = skip_terms_from(s, i);
    if j >= s.len() || s[j] != '|' {
        Result::Ok(Seq::empty())
    } else {
        match spec_info(s, j) {
            Result::Err(e) => Result::Err(e),
            Result::Ok(((k, d), n)) => match spec_fields(s, n) {
                Result::Err(e) => Result::Err(e),
                Result::Ok(r) => Result::Ok(seq![(k, d)] + r),
            },
        }
    }
}

#[via_fn]
proof fn spec_fields_dec(s: Seq<char>, i: int) {
    lemma_skip_terms_from(s, i);
    let j = skip_terms_from(s, i);
    if j < s.len() && s[j] == '|' && spec_info(s, j) is Ok {
        lemma_spec_info_consumes(s, j);
    }
}

/// The document grammar. Empty input is the empty document. Otherwise the
/// envelope must open with `{{`, optional whitespace and the literal
/// `Infobox` (else `NotAnInfobox`), and run to the first `}}` (else
/// `UnterminatedEnvelope`). The first line of the body, trimmed, is the
/// type tag; the rest is the field list, later keys overwriting earlier
/// ones. The returned position is just past `}}`; trailing input is left
/// unread.
pub open spec fn spec_wiki(s: Seq<char>) -> Result<(WikiModel, int), ParseError> {
    if s.len() == 0 {
        Result::Ok(
            (WikiModel { kind: Seq::empty(), fields: Map::empty() }, 0),
        )
    } else if !matches_at(s, seq!['{', '{'], 0) {
        Result::Err(ParseError::NotAnInfobox)
    } else {
        let j = skip_ws_from(s, 2);
        if !matches_at(s, seq!['I', 'n', 'f', 'o', 'b', 'o', 'x'], j) {
            Result::Err(ParseError::NotAnInfobox)
        } else {
            match find_from(s, seq!['}', '}'], j + 7) {
                Option::None => Result::Err(ParseError::UnterminatedEnvelope),
                Option::Some(e) => {
                    let content = s.subrange(j + 7, e);
                    let (kline, b) = line_split_at(content, 0);
                    match spec_fields(content, b) {
                        Result::Err(err) => Result::Err(err),
                        Result::Ok(fs) => Result::Ok(
                            (WikiModel { kind: trim(kline), fields: fields_map(fs) }, e + 2),
                        ),
                    }
                },
            }
        }
    }
}

/// Inserting a later pair into the mapping of a field list overwrites the
/// earlier value under the same key.
pub proof fn lemma_fields_map_push(fs: Seq<(Seq<char>, DataModel)>, p: (Seq<char>, DataModel))
    ensures
        fields_map(fs.push(p)) == fields_map(fs).insert(p.0, p.1),
{
    assert(fs.push(p).drop_last() =~= fs);
}

/// Replacing the entry at `i`, when no later entry shares its key, denotes
/// the same mapping as inserting the replacement pair.
pub proof fn lemma_fields_map_update(
    fs: Seq<(Seq<char>, DataModel)>,
    i: int,
    p: (Seq<char>, DataModel),
)
    requires
        0 <= i < fs.len(),
        fs[i].0 == p.0,
        forall|k: int| i < k < fs.len() ==> fs[k].0 != p.0,
    ensures
        fields_map(fs.update(i, p)) == fields_map(fs).insert(p.0, p.1),
    decreases fs.len(),
{
    let u = fs.update(i, p);
    if i == fs.len() - 1 {
        assert(u.drop_last() =~= fs.drop_last());
        assert(fields_map(u) == fields_map(fs.drop_last()).insert(p.0, p.1));
        assert(fields_map(fs).insert(p.0, p.1) =~= fields_map(fs.drop_last()).insert(
            fs.last().0,
            fs.last().1,
        ).insert(p.0, p.1));
        assert(fields_map(fs.drop_last()).insert(fs.last().0, fs.last().1).insert(p.0, p.1)
            =~= fields_map(fs.drop_last()).insert(p.0, p.1));
    } else {
        assert(u.drop_last() =~= fs.drop_last().update(i, p));
        lemma_fields_map_update(fs.drop_last(), i, p);
        assert(u.last() == fs.last());
        assert(fields_map(u) == fields_map(fs.drop_last()).insert(p.0, p.1).insert(
            fs.last().0,
            fs.last().1,
        ));
        assert(fields_map(fs.drop_last()).insert(p.0, p.1).insert(fs.last().0, fs.last().1)
            =~= fields_map(fs.drop_last()).insert(fs.last().0, fs.last().1).insert(p.0, p.1));
    }
}

/// Puts one field into the document, overwriting the value under an
/// existing key and keeping keys unique.
fn wiki_insert(w: &mut Wiki, key: String, value: Data)
    requires
        old(w).wf(),
    ensures
        final(w).wf(),
        final(w).kind == old(w).kind,
        final(w)@.fields == old(w)@.fields.insert(key@, value@),
{
    let len = w.data.len();
    let mut i = len;
    while i > 0
        invariant
            i <= len,
            *w == *old(w),
            len == w.data@.len(),
            old(w).wf(),
            forall|k: int| i <= k < len ==> w.data@[k].0@ != key@,
        decreases i,
    {
        if str_eq(w.data[i - 1].0.as_str(), key.as_str()) {
            let ghost prev = w.data@;
            w.data[i - 1] = (key, value);
            proof {
                assert(pairs_view(w.data@) =~= pairs_view(prev).update(
                    i - 1,
                    (key@, value@),
                ));
                lemma_fields_map_update(pairs_view(prev), i - 1, (key@, value@));
                assert forall|a: int, b: int| 0 <= a < b < w.data@.len() implies w.data@[a].0@
                    != w.data@[b].0@ by {
                    assert(prev[a].0@ != prev[b].0@);
                }
            }
            return;
        }
        i = i - 1;
    }
    let ghost prev = w.data@;
    w.data.push((key, value));
    proof {
        assert(pairs_view(w.data@) =~= pairs_view(prev).push((key@, value@)));
        lemma_fields_map_push(pairs_view(prev), (key@, value@));
        assert forall|a: int, b: int| 0 <= a < b < w.data@.len() implies w.data@[a].0@
            != w.data@[b].0@ by {
            if b < prev.len() {
                assert(prev[a].0@ != prev[b].0@);
            }
        }
    }
}

/// Parses the leading `{{Infobox ... }}` envelope of `inp` into a document,
/// returning the unread trailing input beside it. Empty input gives the
/// empty document. The result is well formed: its keys are unique, and a
/// key declared twice in the source keeps only the later value.
#[verifier::loop_isolation(false)]
pub fn wiki(inp: &str) -> (r: Result<(&str, Wiki), ParseError>)
    ensures
        match r {
            Result::Ok((rest, w)) => spec_wiki(inp@) matches Result::Ok((wv, n)) && w@ == wv
                && rest@ == inp@.skip(n) && w.wf(),
            Result::Err(e) => spec_wiki(inp@) == Result::Err::<(WikiModel, int), _>(e),
        },
{
    proof {
        reveal_strlit("{{");
        reveal_strlit("Infobox");
        reveal_strlit("}}");
        assert("{{"@ =~= seq!['{', '{']);
        assert("Infobox"@ =~= seq!['I', 'n', 'f', 'o', 'b', 'o', 'x']);
        assert("}}"@ =~= seq!['}', '}']);
    }
    let n = inp.unicode_len();
    if n == 0 {
        let w = Wiki::default();
        let rest = inp.substring_char(0, 0);
        proof {
            assert(rest@ =~= inp@.skip(0));
            assert(w@ =~= spec_wiki(inp@)->Ok_0.0);
        }
        return Result::Ok((rest, w));
    }
    if !match_at(inp, "{{", 0) {
        return Result::Err(ParseError::NotAnInfobox);
    }
    let j = skip_ws(inp, 2);
    if !match_at(inp, "Infobox", j) {
        return Result::Err(ParseError::NotAnInfobox);
    }
    let e = match find_str(inp, "}}", j + 7) {
        Option::None => {
            return Result::Err(ParseError::UnterminatedEnvelope);
        },
        Option::Some(e) => e,
    };
    proof {
        lemma_find_from(inp@, seq!['}', '}'], j as int + 7);
    }
    let content = inp.substring_char(j + 7, e);
    let (kline, b) = line_split(content, 0);
    let mut w = Wiki { kind: trim_str(kline.as_str()), data: Vec::new() };
    proof {
        assert(pairs_view(w.data@) =~= Seq::<(Seq<char>, DataModel)>::empty());
    }
    let clen = content.unicode_len();
    let mut pos = b;
    let ghost mut done: Seq<(Seq<char>, DataModel)> = Seq::empty();
    proof {
        if spec_fields(content@, b as int) is Ok {
            assert(done + spec_fields(content@, b as int)->Ok_0 =~= spec_fields(
                content@,
                b as int,
            )->Ok_0);
        }
    }
    loop
        invariant
            pos <= clen,
            clen == content@.len(),
            w.wf(),
            w.kind@ == trim(kline@),
            match spec_fields(content@, pos as int) {
                Result::Ok(rest2) => spec_fields(content@, b as int) == Result::Ok::<
                    _,
                    ParseError,
                >(done + rest2) && w@.fields == fields_map(done),
                Result::Err(err) => spec_fields(content@, b as int) == Result::Err::<
                    Seq<(Seq<char>, DataModel)>,
                    _,
                >(err),
            },
        decreases clen - pos,
    {
        let t = skip_terms(content, pos);
        if t >= clen || content.get_char(t) != '|' {
            proof {
                assert(spec_fields(content@, pos as int) == Result::Ok::<_, ParseError>(
                    Seq::<(Seq<char>, DataModel)>::empty(),
                ));
                assert(done + Seq::<(Seq<char>, DataModel)>::empty() =~= done);
            }
            let rest = inp.substring_char(e + 2, n);
            proof {
                assert(rest@ =~= inp@.skip(e as int + 2));
                assert(w@ =~= spec_wiki(inp@)->Ok_0.0);
            }
            return Result::Ok((rest, w));
        }
        match info_at(content, t) {
            Result::Err(err) => {
                return Result::Err(err);
            },
            Result::Ok(((key, d), n2)) => {
                let ghost p = (key@, d@);
                proof {
                    if spec_fields(content@, n2 as int) is Ok {
                        let rest3 = spec_fields(content@, n2 as int)->Ok_0;
                        assert(done + (seq![p] + rest3) =~= done.push(p) + rest3);
                    }
                    lemma_fields_map_push(done, p);
                }
                wiki_insert(&mut w, key, d);
                proof {
                    done = done.push(p);
                }
                pos = n2;
            },
        }
    }
}

/// Parses one data value from the front of `inp`, returning the remaining
/// input and the value.
pub fn data(inp: &str) -> (r: Result<(&str, Data), ParseError>)
    ensures
        match r {
            Result::Ok((rest, d)) => spec_data(inp@, 0) matches Result::Ok((dv, n)) && d@ == dv
                && rest@ == inp@.skip(n),
            Result::Err(e) => spec_data(inp@, 0) == Result::Err::<(DataModel, int), _>(e),
        },
{
    match data_at(inp, 0) {
        Result::Ok((d, n)) => {
            let rest = inp.substring_char(n, inp.unicode_len());
            proof {
                assert(inp@.subrange(n as int, inp@.len() as int) =~= inp@.skip(n as int));
            }
            Result::Ok((rest, d))
        },
        Result::Err(e) => Result::Err(e),
    }
}

/// Parses one `|key = value` field from the front of `inp`, returning the
/// remaining input and the pair.
pub fn info(inp: &str) -> (r: Result<(&str, (String, Data)), ParseError>)
    ensures
        match r {
            Result::Ok((rest, kd)) => spec_info(inp@, 0) matches Result::Ok(((k, dv), n))
                && kd.0@ == k && kd.1@ == dv && rest@ == inp@.skip(n),
            Result::Err(e) => spec_info(inp@, 0) == Result::Err::<
                ((Seq<char>, DataModel), int),
                _,
            >(e),
        },
{
    match info_at(inp, 0) {
        Result::Ok((kd, n)) => {
            let rest = inp.substring_char(n, inp.unicode_len());
            proof {
                assert(inp@.subrange(n as int, inp@.len() as int) =~= inp@.skip(n as int));
            }
            Result::Ok((rest, kd))
        },
        Result::Err(e) => Result::Err(e),
    }
}

/// Parses one bracketed item from the front of `inp`, returning the
/// remaining input and the item. Fails with `MalformedItem` exactly when
/// `inp` does not begin with `[` or the bracket never closes.
pub fn item(inp: &str) -> (r: Result<(&str, Item), ParseError>)
    ensures
        match r {
            Result::Ok((rest, it)) => spec_item(inp@, 0) matches Result::Ok((iv, n)) && it@ == iv
                && rest@ == inp@.skip(n),
            Result::Err(e) => spec_item(inp@, 0) == Result::Err::<(ItemModel, int), _>(e),
        },
{
    match item_at(inp, 0) {
        Result::Ok((it, n)) => {
            let rest = inp.substring_char(n, inp.unicode_len());
            proof {
                assert(inp@.subrange(n as int, inp@.len() as int) =~= inp@.skip(n as int));
            }
            Result::Ok((rest, it))
        },
        Result::Err(e) => Result::Err(e),
    }
}

} // verus!
