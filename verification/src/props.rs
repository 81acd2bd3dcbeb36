//! The attribute parser: from the tokens of one tag to its attributes.
//!
//! A token without an unquoted `=` is a flag. Otherwise the text before the
//! first unquoted `=` is the name and the text after it the value, with one
//! pair of enclosing quotation marks removed if the value has one. When a name
//! occurs again, the later value replaces the earlier one and the attribute
//! keeps its place.

use vstd::prelude::*;
use vstd::slice::slice_subrange;
use crate::chars::{find_char, find_char_from, is_quote, is_quote_mark, lemma_find_char, same_chars};
use crate::model::{opt_props_view, props_view, Prop, PropValue, PropValueView, PropView, Props};

verus! {

/// The least index `j >= i` at which `token` holds an `=` outside quotation
/// marks, or `token.len()` if there is none. A quotation mark opens a quoted
/// run that lasts up to the next occurrence of the same mark; a run that is
/// never closed lasts to the end of the token.
pub open spec fn first_unquoted_eq(token: Seq<char>, i: int) -> int
    decreases token.len() - i,
{
    if i < 0 || i >= token.len() {
        token.len() as int
    } else if token[i] == '=' {
        i
    } else if is_quote(token[i]) {
        let close = find_char(token, token[i], i + 1);
        if close >= token.len() {
            token.len() as int
        } else {
            proof {
                lemma_find_char(token, token[i], i + 1);
            }
            first_unquoted_eq(token, close + 1)
        }
    } else {
        first_unquoted_eq(token, i + 1)
    }
}

/// The attribute that one token stands for.
pub open spec fn prop_of_token(token: Seq<char>) -> PropView {
    let eq = first_unquoted_eq(token, 0);
    let len = token.len() as int;
    if eq >= len {
        PropView { name: token, value: PropValueView::BooleanValue(true) }
    } else if len >= eq + 3 && token[eq + 1] == token[len - 1] && is_quote(token[eq + 1]) {
        PropView {
            name: token.subrange(0, eq),
            value: PropValueView::StringValue(token.subrange(eq + 2, len - 1)),
        }
    } else {
        PropView {
            name: token.subrange(0, eq),
            value: PropValueView::StringValue(token.subrange(eq + 1, len)),
        }
    }
}

/// The least index `k >= i` at which `props` holds an attribute called `name`,
/// or `props.len()` if there is none.
pub open spec fn name_index(props: Seq<PropView>, name: Seq<char>, i: int) -> int
    decreases props.len() - i,
{
    if i < 0 || i >= props.len() {
        props.len() as int
    } else if props[i].name == name {
        i
    } else {
        name_index(props, name, i + 1)
    }
}

/// `props` with `prop` written into it: over the attribute of the same name if
/// there is one, at the end otherwise.
pub open spec fn insert_prop(props: Seq<PropView>, prop: PropView) -> Seq<PropView> {
    let k = name_index(props, prop.name, 0);
    if k < props.len() {
        props.update(k, prop)
    } else {
        props.push(prop)
    }
}

/// The attributes that a sequence of tokens stands for.
pub open spec fn props_of_tokens(tokens: Seq<Seq<char>>) -> Seq<PropView>
    decreases tokens.len(),
{
    if tokens.len() == 0 {
        Seq::empty()
    } else {
        insert_prop(props_of_tokens(tokens.drop_last()), prop_of_token(tokens.last()))
    }
}

/// The result of the attribute parser: nothing for a tag without tokens, the
/// attributes of the tokens otherwise.
pub open spec fn parse_props(tokens: Seq<Seq<char>>) -> Option<Seq<PropView>> {
    if tokens.len() == 0 {
        None
    } else {
        Some(props_of_tokens(tokens))
    }
}

/// The character sequences that a sequence of slices holds.
pub open spec fn tokens_view(tokens: Seq<&[char]>) -> Seq<Seq<char>> {
    Seq::new(tokens.len(), |i: int| tokens[i]@)
}

/// What `name_index` finds.
pub proof fn lemma_name_index(props: Seq<PropView>, name: Seq<char>, i: int)
    requires
        0 <= i <= props.len(),
    ensures
        i <= name_index(props, name, i) <= props.len(),
        name_index(props, name, i) < props.len() ==> props[name_index(props, name, i)].name
            == name,
        forall|k: int| i <= k < name_index(props, name, i) ==> (#[trigger] props[k]).name != name,
    decreases props.len() - i,
{
    if i < props.len() && props[i].name != name {
        lemma_name_index(props, name, i + 1);
    }
}

/// `s` holds neither `=` nor a quotation mark.
pub open spec fn plain_name(s: Seq<char>) -> bool {
    forall|i: int| 0 <= i < s.len() ==> (#[trigger] s[i]) != '=' && !is_quote(s[i])
}

/// In a token that starts with a plain name, the search for the first
/// unquoted `=` passes over the name.
pub proof fn lemma_first_unquoted_eq_after_plain(token: Seq<char>, n: int, i: int)
    requires
        0 <= i <= n <= token.len(),
        plain_name(token.subrange(0, n)),
    ensures
        first_unquoted_eq(token, i) == first_unquoted_eq(token, n),
    decreases n - i,
{
    if i < n {
        assert(token.subrange(0, n)[i] == token[i]);
        lemma_first_unquoted_eq_after_plain(token, n, i + 1);
    }
}

/// A token without `=` and without quotation marks is a flag of that name.
pub proof fn lemma_flag_token(token: Seq<char>)
    requires
        plain_name(token),
    ensures
        prop_of_token(token) == (PropView {
            name: token,
            value: PropValueView::BooleanValue(true),
        }),
{
    assert(token.subrange(0, token.len() as int) == token);
    lemma_first_unquoted_eq_after_plain(token, token.len() as int, 0);
}

/// A value between a pair of quotation marks comes back as it was written,
/// whatever it holds: for a plain `name`, the token `name="value"`, or the
/// same with single marks, is the attribute `name` with the string `value`.
pub proof fn lemma_quoted_value(name: Seq<char>, quote: char, value: Seq<char>)
    requires
        plain_name(name),
        is_quote(quote),
    ensures
        prop_of_token(name + seq!['=', quote] + value + seq![quote]) == (PropView {
            name,
            value: PropValueView::StringValue(value),
        }),
{
    let token = name + seq!['=', quote] + value + seq![quote];
    let n = name.len() as int;
    assert(token.subrange(0, n) == name);
    lemma_first_unquoted_eq_after_plain(token, n, 0);
    assert(token[n] == '=');
    assert(first_unquoted_eq(token, 0) == n);
    assert(token[n + 1] == quote);
    assert(token[token.len() - 1] == quote);
    assert(token.subrange(n + 2, token.len() - 1) == value);
}

/// A value without quotation marks around it is taken as it stands: for a
/// plain `name`, the token `name=value` is the attribute `name` with the
/// string `value`, unless `value` is at least two characters long and starts
/// and ends with the same quotation mark.
pub proof fn lemma_verbatim_value(name: Seq<char>, value: Seq<char>)
    requires
        plain_name(name),
        !(value.len() >= 2 && value.first() == value.last() && is_quote(value.first())),
    ensures
        prop_of_token(name + seq!['='] + value) == (PropView {
            name,
            value: PropValueView::StringValue(value),
        }),
{
    let token = name + seq!['='] + value;
    let n = name.len() as int;
    assert(token.subrange(0, n) == name);
    lemma_first_unquoted_eq_after_plain(token, n, 0);
    assert(token[n] == '=');
    assert(first_unquoted_eq(token, 0) == n);
    if value.len() >= 2 {
        assert(token[n + 1] == value.first());
        assert(token[token.len() - 1] == value.last());
    }
    assert(token.subrange(n + 1, token.len() as int) == value);
}

/// No two attributes of `props` bear the same name.
pub open spec fn unique_names(props: Seq<PropView>) -> bool {
    forall|i: int, j: int|
        0 <= i < j < props.len() ==> (#[trigger] props[i]).name != (#[trigger] props[j]).name
}

/// Token `i` is the last of `tokens` that gives its attribute that name.
pub open spec fn last_of_its_name(tokens: Seq<Seq<char>>, i: int) -> bool {
    &&& 0 <= i < tokens.len()
    &&& forall|j: int|
        i < j < tokens.len() ==> prop_of_token(#[trigger] tokens[j]).name != prop_of_token(
            tokens[i],
        ).name
}

/// `prop` is what the last token of its name in `tokens` stands for.
pub open spec fn from_last_of_its_name(tokens: Seq<Seq<char>>, prop: PropView) -> bool {
    exists|i: int| #[trigger] last_of_its_name(tokens, i) && prop == prop_of_token(tokens[i])
}

/// Writing an attribute into a list without repeated names leaves it without
/// repeated names, holding the new attribute and, under every other name,
/// what it held before.
pub proof fn lemma_insert_prop(props: Seq<PropView>, prop: PropView)
    requires
        unique_names(props),
    ensures
        unique_names(insert_prop(props, prop)),
        insert_prop(props, prop).contains(prop),
        insert_prop(props, prop).len() >= 1,
        forall|k: int|
            0 <= k < props.len() && (#[trigger] props[k]).name != prop.name ==> insert_prop(
                props,
                prop,
            ).contains(props[k]),
        forall|k: int|
            0 <= k < insert_prop(props, prop).len() ==> (#[trigger] insert_prop(props, prop)[k])
                == prop || (k < props.len() && props[k].name != prop.name && insert_prop(
                props,
                prop,
            )[k] == props[k]),
{
    let at = name_index(props, prop.name, 0);
    let after = insert_prop(props, prop);
    lemma_name_index(props, prop.name, 0);
    if at < props.len() {
        assert(after[at] == prop);
        assert forall|k: int| 0 <= k < props.len() && (#[trigger] props[k]).name
            != prop.name implies after.contains(props[k]) by {
            assert(after[k] == props[k]);
        }
    } else {
        assert(after[props.len() as int] == prop);
        assert forall|k: int| 0 <= k < props.len() && (#[trigger] props[k]).name
            != prop.name implies after.contains(props[k]) by {
            assert(after[k] == props[k]);
        }
    }
}

/// The attributes of a tag are a map in the order of first mention: no name
/// occurs twice, every attribute comes from the last token that bears its
/// name, and every such token has its attribute in the list. A tag with
/// tokens has at least one attribute.
pub proof fn lemma_props_last_wins(tokens: Seq<Seq<char>>)
    ensures
        unique_names(props_of_tokens(tokens)),
        tokens.len() > 0 ==> props_of_tokens(tokens).len() > 0,
        forall|i: int| #[trigger]
            last_of_its_name(tokens, i) ==> props_of_tokens(tokens).contains(
                prop_of_token(tokens[i]),
            ),
        forall|k: int|
            0 <= k < props_of_tokens(tokens).len() ==> from_last_of_its_name(
                tokens,
                #[trigger] props_of_tokens(tokens)[k],
            ),
    decreases tokens.len(),
{
    if tokens.len() > 0 {
        let front = tokens.drop_last();
        let before = props_of_tokens(front);
        let prop = prop_of_token(tokens.last());
        let after = props_of_tokens(tokens);
        let last = tokens.len() - 1;
        lemma_props_last_wins(front);
        lemma_insert_prop(before, prop);
        assert(last_of_its_name(tokens, last));
        assert forall|i: int| #[trigger] last_of_its_name(tokens, i) implies after.contains(
            prop_of_token(tokens[i]),
        ) by {
            if i < last {
                assert(tokens[last] == tokens.last());
                assert(front[i] == tokens[i]);
                assert(last_of_its_name(front, i)) by {
                    assert forall|j: int| i < j < front.len() implies prop_of_token(
                        #[trigger] front[j],
                    ).name != prop_of_token(front[i]).name by {
                        assert(front[j] == tokens[j]);
                    }
                }
                assert(before.contains(prop_of_token(tokens[i])));
                let k = choose|k: int| 0 <= k < before.len() && before[k] == prop_of_token(tokens[i]);
                assert(before[k].name != prop.name);
            }
        }
        assert forall|k: int| 0 <= k < after.len() implies from_last_of_its_name(
            tokens,
            #[trigger] after[k],
        ) by {
            if after[k] == prop {
                assert(last_of_its_name(tokens, last) && after[k] == prop_of_token(tokens[last]));
            } else {
                assert(after[k] == before[k]);
                assert(from_last_of_its_name(front, before[k]));
                let i = choose|i: int| #[trigger]
                    last_of_its_name(front, i) && before[k] == prop_of_token(front[i]);
                assert(front[i] == tokens[i]);
                assert(last_of_its_name(tokens, i)) by {
                    assert forall|j: int| i < j < tokens.len() implies prop_of_token(
                        #[trigger] tokens[j],
                    ).name != prop_of_token(tokens[i]).name by {
                        if j < last {
                            assert(front[j] == tokens[j]);
                        }
                    }
                }
                assert(last_of_its_name(tokens, i) && after[k] == prop_of_token(tokens[i]));
            }
        }
    }
}

/// Finds the first `=` of `token` that stands outside quotation marks; gives
/// `token.len()` when there is none.
fn find_unquoted_eq(token: &[char]) -> (r: usize)
    ensures
        r == first_unquoted_eq(token@, 0),
        r <= token@.len(),
        r < token@.len() ==> token@[r as int] == '=',
{
    let len: usize = token.len();
    let mut i: usize = 0;
    while i < len
        invariant
            len == token@.len(),
            i <= len,
            first_unquoted_eq(token@, 0) == first_unquoted_eq(token@, i as int),
        decreases len - i,
    {
        let c: char = token[i];
        if c == '=' {
            return i;
        }
        if is_quote_mark(c) {
            let close: usize = find_char_from(token, c, i + 1);
            if close >= len {
                return len;
            }
            i = close + 1;
        } else {
            i += 1;
        }
    }
    len
}

/// Parses one token into an attribute whose name and value borrow from it.
fn parse_prop<'a>(token: &'a [char]) -> (r: Prop<'a>)
    ensures
        r@ == prop_of_token(token@),
{
    let len: usize = token.len();
    let eq: usize = find_unquoted_eq(token);
    if eq >= len {
        return Prop { name: token, value: PropValue::BooleanValue(true) };
    }
    let name: &'a [char] = slice_subrange(token, 0, eq);
    if len - eq >= 3 && token[eq + 1] == token[len - 1] && is_quote_mark(token[eq + 1]) {
        Prop { name, value: PropValue::StringValue(slice_subrange(token, eq + 2, len - 1)) }
    } else {
        Prop { name, value: PropValue::StringValue(slice_subrange(token, eq + 1, len)) }
    }
}

/// Writes `prop` into `props`: over the attribute of the same name if there
/// is one, at the end otherwise.
fn put_prop<'a>(props: &mut Props<'a>, prop: Prop<'a>)
    ensures
        props_view(final(props)@) == insert_prop(props_view(old(props)@), prop@),
{
    let len: usize = props.len();
    let mut k: usize = 0;
    while k < len
        invariant
            len == props@.len(),
            k <= len,
            *props == *old(props),
            name_index(props_view(props@), prop@.name, 0) == name_index(
                props_view(props@),
                prop@.name,
                k as int,
            ),
        decreases len - k,
    {
        if same_chars(props[k].name, prop.name) {
            props.set(k, prop);
            assert(props_view(props@) == props_view(old(props)@).update(k as int, prop@));
            return;
        }
        k += 1;
    }
    props.push(prop);
    assert(props_view(props@) == props_view(old(props)@).push(prop@));
}

/// Parses the tokens of one tag into its attributes. Gives `None` for a tag
/// without tokens. Where a name occurs more than once, the last value stands.
pub fn parse_expression_to_props<'a>(expressions: Vec<&'a [char]>) -> (r: Option<Props<'a>>)
    ensures
        opt_props_view(r) == parse_props(tokens_view(expressions@)),
        r is None <==> expressions@.len() == 0,
        r matches Some(props) ==> props@.len() > 0 && unique_names(props_view(props@)),
{
    let len: usize = expressions.len();
    if len == 0 {
        return None;
    }
    let ghost tokens = tokens_view(expressions@);
    proof {
        lemma_props_last_wins(tokens);
    }
    let mut props: Props<'a> = Vec::new();
    let mut i: usize = 0;
    assert(tokens.subrange(0, 0) == Seq::<Seq<char>>::empty());
    while i < len
        invariant
            len == expressions@.len(),
            tokens == tokens_view(expressions@),
            i <= len,
            props_view(props@) == props_of_tokens(tokens.subrange(0, i as int)),
        decreases len - i,
    {
        let prop: Prop<'a> = parse_prop(expressions[i]);
        put_prop(&mut props, prop);
        i += 1;
        assert(tokens.subrange(0, i as int).drop_last() == tokens.subrange(0, i - 1));
        assert(tokens.subrange(0, i as int).last() == expressions@[i - 1]@);
    }
    assert(tokens.subrange(0, len as int) == tokens);
    Some(props)
}

} // verus!
