//! The local configuration store: three independently keyed entities kept
//! as JSON-encoded strings. Loading decodes the stored text and falls back
//! to the documented default when the key is absent or does not decode;
//! saving re-encodes the whole entity. The encoders and parsers invert one
//! another, which the round-trip lemmas state.

use vstd::prelude::*;
use crate::json;
use crate::model::AppSettings;
use crate::model::BudgetItem;
use crate::model::Contribution;
use crate::model::SavingGoalState;
use crate::settings;

verus! {

/// `Some(i + lit.len())` when `lit` occurs in `s` at position `i`.
pub open spec fn expect(s: Seq<char>, i: int, lit: Seq<char>) -> Option<int> {
    if 0 <= i && i + lit.len() <= s.len() && s.subrange(i, i + lit.len()) == lit {
        Some(i + lit.len())
    } else {
        None
    }
}

proof fn lemma_split_at(s: Seq<char>, i: int, a: Seq<char>, b: Seq<char>)
    requires
        0 <= i,
        i + a.len() + b.len() <= s.len(),
        s.subrange(i, i + a.len() + b.len()) == a + b,
    ensures
        s.subrange(i, i + a.len()) == a,
        s.subrange(i + a.len(), i + a.len() + b.len()) == b,
{
    assert(s.subrange(i, i + a.len()) =~= a) by {
        assert forall|k: int| 0 <= k < a.len() implies s.subrange(i, i + a.len())[k] == a[k] by {
            assert(s.subrange(i, i + a.len())[k] == s.index(i + k));
            assert(s.subrange(i, i + a.len() + b.len())[k] == (a + b)[k]);
        }
    }
    assert(s.subrange(i + a.len(), i + a.len() + b.len()) =~= b) by {
        assert forall|k: int|
            0 <= k < b.len() implies s.subrange(i + a.len(), i + a.len() + b.len())[k] == b[k] by {
            assert(s.subrange(i + a.len(), i + a.len() + b.len())[k] == s.index(i + a.len() + k));
            assert(s.subrange(i, i + a.len() + b.len()).index(a.len() + k) == (a + b).index(
                a.len() + k,
            ));
            assert((a + b).index(a.len() + k) == b[k]);
            assert(s.subrange(i, i + a.len() + b.len()).index(a.len() + k) == s.index(i + a.len()
                + k));
        }
    }
}

/// Finds `lit` at position `i`, as the `expect` specification does.
fn expect_lit(s: &str, i: usize, lit: &str) -> (r: Option<usize>)
    requires
        i <= s@.len(),
    ensures
        match r {
            Some(j) => expect(s@, i as int, lit@) == Some(j as int) && i <= j <= s@.len(),
            None => expect(s@, i as int, lit@) is None,
        },
{
    let llen = lit.unicode_len();
    let slen = s.unicode_len();
    if slen - i < llen {
        return None;
    }
    let mut k: usize = 0;
    while k < llen
        invariant
            llen == lit@.len(),
            slen == s@.len(),
            i + llen <= slen,
            k <= llen,
            forall|t: int| 0 <= t < k ==> s@[i + t] == lit@[t],
        decreases llen - k,
    {
        if s.get_char(i + k) as u32 != lit.get_char(k) as u32 {
            proof {
                vstd::utf8::char_is_scalar(s@[i as int + k as int]);
                vstd::utf8::char_is_scalar(lit@[k as int]);
                assert(s@[i as int + k as int] != lit@[k as int]);
                assert(s@.subrange(i as int, i as int + llen as int)[k as int] == s@[i as int
                    + k as int]);
                assert(s@.subrange(i as int, i as int + llen as int) != lit@);
            }
            return None;
        }
        proof {
            vstd::utf8::char_u32_cast(s@[i as int + k as int], s@[i as int + k as int] as u32);
            vstd::utf8::char_u32_cast(lit@[k as int], lit@[k as int] as u32);
        }
        k += 1;
    }
    proof {
        assert(s@.subrange(i as int, i as int + llen as int) =~= lit@);
    }
    Some(i + llen)
}

/// The settings entity as JSON text.
pub open spec fn enc_settings(code: Seq<char>, symbol: Seq<char>) -> Seq<char> {
    "{\"currency_code\":"@ + (json::enc_str_tok(code) + (",\"currency_symbol\":"@ + (
    json::enc_str_tok(symbol) + "}"@)))
}

/// The decoded settings fields, when `s` is exactly a settings document.
pub open spec fn parse_settings(s: Seq<char>) -> Option<(Seq<char>, Seq<char>)> {
    match expect(s, 0, "{\"currency_code\":"@) {
        None => None,
        Some(i1) => match json::parse_str_tok(s, i1) {
            None => None,
            Some((code, i2)) => match expect(s, i2, ",\"currency_symbol\":"@) {
                None => None,
                Some(i3) => match json::parse_str_tok(s, i3) {
                    None => None,
                    Some((symbol, i4)) => match expect(s, i4, "}"@) {
                        None => None,
                        Some(i5) => if i5 == s.len() {
                            Some((code, symbol))
                        } else {
                            None
                        },
                    },
                },
            },
        },
    }
}

/// Decoding an encoded settings document returns the encoded fields: the
/// persist/load round trip is the identity on the settings entity.
pub proof fn lemma_settings_round_trip(code: Seq<char>, symbol: Seq<char>)
    ensures
        parse_settings(enc_settings(code, symbol)) == Some((code, symbol)),
{
    let h = "{\"currency_code\":"@;
    let m = ",\"currency_symbol\":"@;
    let e = "}"@;
    let a = json::enc_str_tok(code);
    let b = json::enc_str_tok(symbol);
    let s = enc_settings(code, symbol);
    let r1 = a + (m + (b + e));
    let r2 = m + (b + e);
    let r3 = b + e;
    assert(s.subrange(0, s.len() as int) =~= s);
    assert(s == h + r1);
    lemma_split_at(s, 0, h, r1);
    let i1 = h.len() as int;
    lemma_split_at(s, i1, a, r2);
    json::lemma_parse_str_of_enc(s, i1, code);
    let i2 = i1 + a.len();
    lemma_split_at(s, i2, m, r3);
    let i3 = i2 + m.len();
    lemma_split_at(s, i3, b, e);
    json::lemma_parse_str_of_enc(s, i3, symbol);
    let i4 = i3 + b.len();
    assert(s.subrange(i4, i4 + e.len()) == e);
}

/// Encodes the settings entity.
pub fn encode_settings(s: &AppSettings) -> (r: String)
    ensures
        r@ == enc_settings(s.currency_code@, s.currency_symbol@),
{
    let mut out = String::new();
    out.append("{\"currency_code\":");
    json::append_str_tok(&mut out, s.currency_code.as_str());
    out.append(",\"currency_symbol\":");
    json::append_str_tok(&mut out, s.currency_symbol.as_str());
    out.append("}");
    proof {
        assert(out@ =~= enc_settings(s.currency_code@, s.currency_symbol@));
    }
    out
}

/// Decodes a settings document, as the `parse_settings` specification does.
pub fn decode_settings(s: &str) -> (r: Option<AppSettings>)
    ensures
        match r {
            Some(st) => parse_settings(s@) matches Some(p) && st.currency_code@ == p.0
                && st.currency_symbol@ == p.1,
            None => parse_settings(s@) is None,
        },
{
    let len = s.unicode_len();
    let i1 = match expect_lit(s, 0, "{\"currency_code\":") {
        Some(j) => j,
        None => {
            return None;
        },
    };
    let (code, i2) = match json::read_str_tok(s, i1) {
        Some(p) => p,
        None => {
            return None;
        },
    };
    let i3 = match expect_lit(s, i2, ",\"currency_symbol\":") {
        Some(j) => j,
        None => {
            return None;
        },
    };
    let (symbol, i4) = match json::read_str_tok(s, i3) {
        Some(p) => p,
        None => {
            return None;
        },
    };
    let i5 = match expect_lit(s, i4, "}") {
        Some(j) => j,
        None => {
            return None;
        },
    };
    if i5 != len {
        return None;
    }
    Some(AppSettings { currency_code: code, currency_symbol: symbol })
}

/// The view of one budget: category text and limit.
pub open spec fn budget_views(items: Seq<BudgetItem>) -> Seq<(Seq<char>, int)> {
    items.map_values(|b: BudgetItem| (b.category@, b.limit as int))
}

/// One budget as JSON text.
pub open spec fn enc_budget(cat: Seq<char>, limit: int) -> Seq<char> {
    "{\"category\":"@ + (json::enc_str_tok(cat) + (",\"limit\":"@ + (json::enc_int_tok(limit)
        + "}"@)))
}

/// The items after the first, each preceded by a comma, then the closing
/// bracket.
pub open spec fn enc_budget_tail(items: Seq<(Seq<char>, int)>) -> Seq<char>
    decreases items.len(),
{
    if items.len() == 0 {
        "]"@
    } else {
        ","@ + (enc_budget(items[0].0, items[0].1) + enc_budget_tail(items.drop_first()))
    }
}

/// The budget collection as a JSON array.
pub open spec fn enc_budgets(items: Seq<(Seq<char>, int)>) -> Seq<char> {
    if items.len() == 0 {
        "[]"@
    } else {
        "["@ + (enc_budget(items[0].0, items[0].1) + enc_budget_tail(items.drop_first()))
    }
}

/// One budget object at position `i`.
pub open spec fn parse_budget(s: Seq<char>, i: int) -> Option<((Seq<char>, int), int)> {
    match expect(s, i, "{\"category\":"@) {
        None => None,
        Some(i1) => match json::parse_str_tok(s, i1) {
            None => None,
            Some((cat, i2)) => match expect(s, i2, ",\"limit\":"@) {
                None => None,
                Some(i3) => match json::parse_int_tok(s, i3) {
                    None => None,
                    Some((v, i4)) => if i64::MIN <= v <= i64::MAX {
                        match expect(s, i4, "}"@) {
                            None => None,
                            Some(i5) => Some(((cat, v), i5)),
                        }
                    } else {
                        None
                    },
                },
            },
        },
    }
}

/// The remaining items of a budget array: either the closing bracket, or a
/// comma and one more item, repeatedly.
pub open spec fn parse_budget_tail(s: Seq<char>, i: int) -> Option<(Seq<(Seq<char>, int)>, int)>
    decreases s.len() - i,
{
    if i < 0 || i >= s.len() {
        None
    } else if s[i] == ']' {
        Some((Seq::empty(), i + 1))
    } else if s[i] == ',' {
        match parse_budget(s, i + 1) {
            None => None,
            Some((b, j)) => if i + 1 < j && j <= s.len() {
                match parse_budget_tail(s, j) {
                    None => None,
                    Some((rest, k)) => Some((seq![b] + rest, k)),
                }
            } else {
                None
            },
        }
    } else {
        None
    }
}

/// A whole budget-collection document.
pub open spec fn parse_budgets(s: Seq<char>) -> Option<Seq<(Seq<char>, int)>> {
    if s.len() >= 1 && s[0] == '[' {
        if s.len() >= 2 && s[1] == ']' {
            if s.len() == 2 {
                Some(Seq::empty())
            } else {
                None
            }
        } else {
            match parse_budget(s, 1) {
                None => None,
                Some((b, j)) => if 1 < j && j <= s.len() {
                    match parse_budget_tail(s, j) {
                        None => None,
                        Some((rest, k)) => if k == s.len() {
                            Some(seq![b] + rest)
                        } else {
                            None
                        },
                    }
                } else {
                    None
                },
            }
        }
    } else {
        None
    }
}

proof fn lemma_budget_item_round_trip(s: Seq<char>, i: int, cat: Seq<char>, limit: int)
    requires
        0 <= i,
        i64::MIN <= limit <= i64::MAX,
        i + enc_budget(cat, limit).len() <= s.len(),
        s.subrange(i, i + enc_budget(cat, limit).len()) == enc_budget(cat, limit),
    ensures
        parse_budget(s, i) == Some(((cat, limit), i + enc_budget(cat, limit).len())),
        enc_budget(cat, limit).len() >= 2,
{
    reveal_strlit("{\"category\":");
    reveal_strlit(",\"limit\":");
    reveal_strlit("}");
    let h = "{\"category\":"@;
    let m = ",\"limit\":"@;
    let e = "}"@;
    let a = json::enc_str_tok(cat);
    let b = json::enc_int_tok(limit);
    let r1 = a + (m + (b + e));
    let r2 = m + (b + e);
    let r3 = b + e;
    lemma_split_at(s, i, h, r1);
    let i1 = i + h.len();
    lemma_split_at(s, i1, a, r2);
    json::lemma_parse_str_of_enc(s, i1, cat);
    let i2 = i1 + a.len();
    lemma_split_at(s, i2, m, r3);
    let i3 = i2 + m.len();
    lemma_split_at(s, i3, b, e);
    let i4 = i3 + b.len();
    assert(s.index(i4) == '}') by {
        assert(s.subrange(i4, i4 + e.len())[0] == e[0]);
    }
    json::lemma_parse_int_of_enc(s, i3, limit);
}

proof fn lemma_budget_tail_round_trip(s: Seq<char>, i: int, items: Seq<(Seq<char>, int)>)
    requires
        0 <= i,
        forall|k: int| 0 <= k < items.len() ==> i64::MIN <= (#[trigger] items[k]).1 <= i64::MAX,
        i + enc_budget_tail(items).len() <= s.len(),
        s.subrange(i, i + enc_budget_tail(items).len()) == enc_budget_tail(items),
    ensures
        parse_budget_tail(s, i) == Some((items, i + enc_budget_tail(items).len())),
    decreases items.len(),
{
    reveal_strlit("]");
    reveal_strlit(",");
    if items.len() == 0 {
        assert(s.index(i) == ']') by {
            assert(s.subrange(i, i + 1)[0] == "]"@[0]);
        }
    } else {
        let b0 = items[0];
        let rest = items.drop_first();
        let a = enc_budget(b0.0, b0.1);
        let r1 = a + enc_budget_tail(rest);
        lemma_split_at(s, i, ","@, r1);
        assert(s.index(i) == ',') by {
            assert(s.subrange(i, i + 1)[0] == ","@[0]);
        }
        let i1 = i + 1;
        lemma_split_at(s, i1, a, enc_budget_tail(rest));
        lemma_budget_item_round_trip(s, i1, b0.0, b0.1);
        let j = i1 + a.len();
        lemma_budget_tail_round_trip(s, j, rest);
        assert(seq![b0] + rest =~= items);
    }
}

/// Decoding an encoded budget collection returns the encoded items, in
/// order: the persist/load round trip is the identity on budget lists.
pub proof fn lemma_budgets_round_trip(items: Seq<(Seq<char>, int)>)
    requires
        forall|k: int| 0 <= k < items.len() ==> i64::MIN <= (#[trigger] items[k]).1 <= i64::MAX,
    ensures
        parse_budgets(enc_budgets(items)) == Some(items),
{
    reveal_strlit("[]");
    reveal_strlit("[");
    reveal_strlit("]");
    reveal_strlit("{\"category\":");
    let s = enc_budgets(items);
    if items.len() == 0 {
        assert(s == "[]"@);
        assert(s[0] == '[' && s[1] == ']');
    } else {
        let b0 = items[0];
        let rest = items.drop_first();
        let a = enc_budget(b0.0, b0.1);
        let r1 = a + enc_budget_tail(rest);
        assert(s.subrange(0, s.len() as int) =~= s);
        lemma_split_at(s, 0, "["@, r1);
        assert(s.index(0) == '[') by {
            assert(s.subrange(0, 1)[0] == "["@[0]);
        }
        lemma_split_at(s, 1, a, enc_budget_tail(rest));
        lemma_budget_item_round_trip(s, 1, b0.0, b0.1);
        assert(s.index(1) == '{') by {
            assert(s.subrange(1, 1 + a.len() as int)[0] == a[0]);
            assert(a[0] == "{\"category\":"@[0]);
        }
        let j: int = 1 + a.len() as int;
        lemma_budget_tail_round_trip(s, j, rest);
        assert(seq![b0] + rest =~= items);
    }
}

/// Appends one budget object.
fn append_budget(out: &mut String, b: &BudgetItem)
    ensures
        final(out)@ == old(out)@ + enc_budget(b.category@, b.limit as int),
{
    out.append("{\"category\":");
    json::append_str_tok(out, b.category.as_str());
    out.append(",\"limit\":");
    json::append_int_tok(out, b.limit);
    out.append("}");
    proof {
        assert(final(out)@ =~= old(out)@ + enc_budget(b.category@, b.limit as int));
    }
}

/// Encodes the budget collection.
pub fn encode_budgets(items: &Vec<BudgetItem>) -> (r: String)
    ensures
        r@ == enc_budgets(budget_views(items@)),
{
    let ghost views = budget_views(items@);
    let mut out = String::new();
    if items.len() == 0 {
        out.append("[]");
        proof {
            assert(out@ =~= enc_budgets(views));
        }
        return out;
    }
    out.append("[");
    append_budget(&mut out, &items[0]);
    let mut j: usize = 1;
    proof {
        assert(views.skip(1) =~= views.drop_first());
        assert(out@ + enc_budget_tail(views.skip(1)) =~= enc_budgets(views));
    }
    while j < items.len()
        invariant
            1 <= j <= items@.len(),
            views == budget_views(items@),
            out@ + enc_budget_tail(views.skip(j as int)) == enc_budgets(views),
        decreases items@.len() - j,
    {
        let ghost pre = out@;
        out.append(",");
        append_budget(&mut out, &items[j]);
        proof {
            assert(views.skip(j as int).drop_first() =~= views.skip(j as int + 1));
            assert(views.skip(j as int)[0] == views[j as int]);
            assert(enc_budget_tail(views.skip(j as int)) == ","@ + (enc_budget(
                views[j as int].0,
                views[j as int].1,
            ) + enc_budget_tail(views.skip(j as int + 1))));
            assert(out@ + enc_budget_tail(views.skip(j as int + 1)) =~= pre + enc_budget_tail(
                views.skip(j as int),
            ));
        }
        j += 1;
    }
    out.append("]");
    proof {
        assert(views.skip(items@.len() as int) =~= Seq::<(Seq<char>, int)>::empty());
        assert(out@ =~= enc_budgets(views));
    }
    out
}

/// Reads one budget object, as the `parse_budget` specification does.
fn read_budget(s: &str, i: usize) -> (r: Option<(BudgetItem, usize)>)
    requires
        i <= s@.len(),
    ensures
        match r {
            Some((b, j)) => parse_budget(s@, i as int) == Some(((b.category@, b.limit as int), j as int))
                && i as int + 1 < j as int <= s@.len(),
            None => parse_budget(s@, i as int) is None,
        },
{
    let i1 = match expect_lit(s, i, "{\"category\":") {
        Some(j) => j,
        None => {
            return None;
        },
    };
    let (cat, i2) = match json::read_str_tok(s, i1) {
        Some(p) => p,
        None => {
            return None;
        },
    };
    let i3 = match expect_lit(s, i2, ",\"limit\":") {
        Some(j) => j,
        None => {
            return None;
        },
    };
    let (v, i4) = match json::read_int_tok(s, i3) {
        Some(p) => p,
        None => {
            return None;
        },
    };
    let i5 = match expect_lit(s, i4, "}") {
        Some(j) => j,
        None => {
            return None;
        },
    };
    proof {
        reveal_strlit("{\"category\":");
        assert(i as int + 1 < i1 as int);
    }
    Some((BudgetItem { category: cat, limit: v }, i5))
}

/// The collection invariant over decoded views: positive limits and
/// categories pairwise distinct up to ASCII case.
pub open spec fn budget_views_wf(views: Seq<(Seq<char>, int)>) -> bool {
    &&& forall|i: int| 0 <= i < views.len() ==> (#[trigger] views[i]).1 >= 1
    &&& forall|i: int, j: int|
        0 <= i < j < views.len() ==> !crate::text::seq_ci_eq(
            (#[trigger] views[i]).0,
            (#[trigger] views[j]).0,
        )
}

/// Whether the decoded collection satisfies the budget invariants.
fn budgets_valid(items: &Vec<BudgetItem>) -> (r: bool)
    ensures
        r == crate::model::budgets_wf(items@),
{
    let mut i: usize = 0;
    while i < items.len()
        invariant
            i <= items@.len(),
            forall|a: int| 0 <= a < i ==> (#[trigger] items@[a]).wf(),
            forall|a: int, b: int|
                0 <= a < b < i ==> !crate::text::seq_ci_eq(
                    (#[trigger] items@[a]).category@,
                    (#[trigger] items@[b]).category@,
                ),
        decreases items@.len() - i,
    {
        if items[i].limit < 1 {
            return false;
        }
        let mut j: usize = 0;
        while j < i
            invariant
                j <= i < items@.len(),
                forall|b: int|
                    0 <= b < j ==> !crate::text::seq_ci_eq(
                        (#[trigger] items@[b]).category@,
                        items@[i as int].category@,
                    ),
            decreases i - j,
        {
            if crate::text::eq_ignore_case(items[j].category.as_str(), items[i].category.as_str())
            {
                return false;
            }
            j += 1;
        }
        i += 1;
    }
    true
}

proof fn lemma_budget_wf_views(items: Seq<BudgetItem>)
    ensures
        crate::model::budgets_wf(items) == budget_views_wf(budget_views(items)),
{
    let views = budget_views(items);
    assert(forall|i: int|
        0 <= i < items.len() ==> #[trigger] views[i] == (items[i].category@, items[i].limit as int));
    if crate::model::budgets_wf(items) {
        assert forall|i: int| 0 <= i < views.len() implies (#[trigger] views[i]).1 >= 1 by {
            assert(items[i].wf());
        }
        assert forall|i: int, j: int|
            0 <= i < j < views.len() implies !crate::text::seq_ci_eq(
            (#[trigger] views[i]).0,
            (#[trigger] views[j]).0,
        ) by {
            assert(!crate::text::seq_ci_eq(items[i].category@, items[j].category@));
        }
    }
    if budget_views_wf(views) {
        assert forall|i: int| 0 <= i < items.len() implies (#[trigger] items[i]).wf() by {
            assert(views[i].1 >= 1);
        }
        assert forall|i: int, j: int|
            0 <= i < j < items.len() implies !crate::text::seq_ci_eq(
            (#[trigger] items[i]).category@,
            (#[trigger] items[j]).category@,
        ) by {
            assert(!crate::text::seq_ci_eq(views[i].0, views[j].0));
        }
    }
}

/// Decodes a budget-collection document: the parsed items when the text is
/// well formed and the decoded collection keeps the budget invariants.
pub fn decode_budgets(s: &str) -> (r: Option<Vec<BudgetItem>>)
    ensures
        match r {
            Some(v) => parse_budgets(s@) == Some(budget_views(v@)) && crate::model::budgets_wf(
                v@,
            ),
            None => match parse_budgets(s@) {
                Some(views) => !budget_views_wf(views),
                None => true,
            },
        },
{
    let parsed = decode_budget_items(s);
    match parsed {
        Some(items) => {
            if budgets_valid(&items) {
                proof {
                    lemma_budget_wf_views(items@);
                }
                Some(items)
            } else {
                proof {
                    lemma_budget_wf_views(items@);
                }
                None
            }
        },
        None => None,
    }
}

/// Reads the raw items of a budget-collection document.
fn decode_budget_items(s: &str) -> (r: Option<Vec<BudgetItem>>)
    ensures
        match r {
            Some(v) => parse_budgets(s@) == Some(budget_views(v@)),
            None => parse_budgets(s@) is None,
        },
{
    let len = s.unicode_len();
    if len == 0 || s.get_char(0) as u32 != 91 {
        proof {
            if len > 0 {
                assert(s@[0] != '[');
            }
        }
        return None;
    }
    proof {
        assert(s@[0] == '[');
    }
    if len >= 2 && s.get_char(1) as u32 == 93 {
        proof {
            assert(s@[1] == ']');
        }
        if len == 2 {
            let empty: Vec<BudgetItem> = Vec::new();
            proof {
                assert(budget_views(empty@) =~= Seq::<(Seq<char>, int)>::empty());
            }
            return Some(empty);
        }
        return None;
    }
    proof {
        if len >= 2 {
            assert(s@[1] != ']');
        }
    }
    let mut acc: Vec<BudgetItem> = Vec::new();
    let (b0, first_end) = match read_budget(s, 1) {
        Some(p) => p,
        None => {
            return None;
        },
    };
    acc.push(b0);
    let mut pos: usize = first_end;
    while pos < len
        invariant
            len == s@.len(),
            1 < pos as int <= len,
            s@[0] == '[',
            match parse_budget_tail(s@, pos as int) {
                Some(p) => if p.1 == s@.len() {
                    parse_budgets(s@) == Some(budget_views(acc@) + p.0)
                } else {
                    parse_budgets(s@) is None
                },
                None => parse_budgets(s@) is None,
            },
        decreases len - pos,
    {
        let c = s.get_char(pos) as u32;
        if c == 93 {
            proof {
                assert(s@[pos as int] == ']');
                assert(parse_budget_tail(s@, pos as int) == Some(
                    (Seq::<(Seq<char>, int)>::empty(), pos as int + 1),
                ));
            }
            if pos + 1 == len {
                proof {
                    assert(budget_views(acc@) + Seq::<(Seq<char>, int)>::empty() =~= budget_views(
                        acc@,
                    ));
                }
                return Some(acc);
            }
            return None;
        }
        if c != 44 {
            proof {
                assert(s@[pos as int] != ']' && s@[pos as int] != ',');
            }
            return None;
        }
        proof {
            assert(s@[pos as int] == ',');
        }
        let (b, j) = match read_budget(s, pos + 1) {
            Some(p) => p,
            None => {
                return None;
            },
        };
        let ghost old_acc = acc@;
        acc.push(b);
        proof {
            assert(budget_views(acc@) =~= budget_views(old_acc) + seq![
                (b.category@, b.limit as int),
            ]);
            assert forall|rest: Seq<(Seq<char>, int)>|
                budget_views(old_acc) + (seq![(b.category@, b.limit as int)] + rest)
                    == budget_views(acc@) + rest by {
                assert(budget_views(old_acc) + (seq![(b.category@, b.limit as int)] + rest)
                    =~= budget_views(acc@) + rest);
            }
        }
        pos = j;
    }
    proof {
        assert(parse_budget_tail(s@, pos as int) is None);
    }
    None
}

/// The view of one contribution: date, description, amount.
pub open spec fn contrib_views(cs: Seq<Contribution>) -> Seq<(Seq<char>, Seq<char>, int)> {
    cs.map_values(|c: Contribution| (c.date@, c.description@, c.amount as int))
}

/// One contribution as JSON text.
pub open spec fn enc_contrib(date: Seq<char>, desc: Seq<char>, amount: int) -> Seq<char> {
    "{\"date\":"@ + (json::enc_str_tok(date) + (",\"description\":"@ + (json::enc_str_tok(desc) + (
    ",\"amount\":"@ + (json::enc_int_tok(amount) + "}"@)))))
}

/// The contributions after the first, each preceded by a comma, then the
/// closing bracket.
pub open spec fn enc_contrib_tail(items: Seq<(Seq<char>, Seq<char>, int)>) -> Seq<char>
    decreases items.len(),
{
    if items.len() == 0 {
        "]"@
    } else {
        ","@ + (enc_contrib(items[0].0, items[0].1, items[0].2) + enc_contrib_tail(
            items.drop_first(),
        ))
    }
}

/// The contribution list as a JSON array.
pub open spec fn enc_contribs(items: Seq<(Seq<char>, Seq<char>, int)>) -> Seq<char> {
    if items.len() == 0 {
        "[]"@
    } else {
        "["@ + (enc_contrib(items[0].0, items[0].1, items[0].2) + enc_contrib_tail(
            items.drop_first(),
        ))
    }
}

/// The saving-goal entity as JSON text.
pub open spec fn enc_goal(
    title: Seq<char>,
    target: int,
    date: Seq<char>,
    contribs: Seq<(Seq<char>, Seq<char>, int)>,
) -> Seq<char> {
    "{\"title\":"@ + (json::enc_str_tok(title) + (",\"target_amount\":"@ + (json::enc_int_tok(
        target,
    ) + (",\"target_date\":"@ + (json::enc_str_tok(date) + (",\"contributions\":"@ + (enc_contribs(
        contribs,
    ) + "}"@)))))))
}

/// One contribution object at position `i`.
pub open spec fn parse_contrib(s: Seq<char>, i: int) -> Option<((Seq<char>, Seq<char>, int), int)> {
    match expect(s, i, "{\"date\":"@) {
        None => None,
        Some(i1) => match json::parse_str_tok(s, i1) {
            None => None,
            Some((date, i2)) => match expect(s, i2, ",\"description\":"@) {
                None => None,
                Some(i3) => match json::parse_str_tok(s, i3) {
                    None => None,
                    Some((desc, i4)) => match expect(s, i4, ",\"amount\":"@) {
                        None => None,
                        Some(i5) => match json::parse_int_tok(s, i5) {
                            None => None,
                            Some((v, i6)) => if i64::MIN <= v <= i64::MAX {
                                match expect(s, i6, "}"@) {
                                    None => None,
                                    Some(i7) => Some(((date, desc, v), i7)),
                                }
                            } else {
                                None
                            },
                        },
                    },
                },
            },
        },
    }
}

/// The remaining contributions of the array.
pub open spec fn parse_contrib_tail(s: Seq<char>, i: int) -> Option<
    (Seq<(Seq<char>, Seq<char>, int)>, int),
>
    decreases s.len() - i,
{
    if i < 0 || i >= s.len() {
        None
    } else if s[i] == ']' {
        Some((Seq::empty(), i + 1))
    } else if s[i] == ',' {
        match parse_contrib(s, i + 1) {
            None => None,
            Some((c, j)) => if i + 1 < j && j <= s.len() {
                match parse_contrib_tail(s, j) {
                    None => None,
                    Some((rest, k)) => Some((seq![c] + rest, k)),
                }
            } else {
                None
            },
        }
    } else {
        None
    }
}

/// A contribution array at position `i`.
pub open spec fn parse_contribs(s: Seq<char>, i: int) -> Option<
    (Seq<(Seq<char>, Seq<char>, int)>, int),
> {
    if 0 <= i && i < s.len() && s[i] == '[' {
        if i + 1 < s.len() && s[i + 1] == ']' {
            Some((Seq::empty(), i + 2))
        } else {
            match parse_contrib(s, i + 1) {
                None => None,
                Some((c, j)) => if i + 1 < j && j <= s.len() {
                    match parse_contrib_tail(s, j) {
                        None => None,
                        Some((rest, k)) => Some((seq![c] + rest, k)),
                    }
                } else {
                    None
                },
            }
        }
    } else {
        None
    }
}

/// A whole saving-goal document.
pub open spec fn parse_goal(s: Seq<char>) -> Option<
    (Seq<char>, int, Seq<char>, Seq<(Seq<char>, Seq<char>, int)>),
> {
    match expect(s, 0, "{\"title\":"@) {
        None => None,
        Some(i1) => match json::parse_str_tok(s, i1) {
            None => None,
            Some((title, i2)) => match expect(s, i2, ",\"target_amount\":"@) {
                None => None,
                Some(i3) => match json::parse_int_tok(s, i3) {
                    None => None,
                    Some((target, i4)) => if i64::MIN <= target <= i64::MAX {
                        match expect(s, i4, ",\"target_date\":"@) {
                            None => None,
                            Some(i5) => match json::parse_str_tok(s, i5) {
                                None => None,
                                Some((date, i6)) => match expect(s, i6, ",\"contributions\":"@) {
                                    None => None,
                                    Some(i7) => match parse_contribs(s, i7) {
                                        None => None,
                                        Some((cs, i8)) => match expect(s, i8, "}"@) {
                                            None => None,
                                            Some(i9) => if i9 == s.len() {
                                                Some((title, target, date, cs))
                                            } else {
                                                None
                                            },
                                        },
                                    },
                                },
                            },
                        }
                    } else {
                        None
                    },
                },
            },
        },
    }
}

proof fn lemma_contrib_item_round_trip(
    s: Seq<char>,
    i: int,
    date: Seq<char>,
    desc: Seq<char>,
    amount: int,
)
    requires
        0 <= i,
        i64::MIN <= amount <= i64::MAX,
        i + enc_contrib(date, desc, amount).len() <= s.len(),
        s.subrange(i, i + enc_contrib(date, desc, amount).len()) == enc_contrib(
            date,
            desc,
            amount,
        ),
    ensures
        parse_contrib(s, i) == Some(((date, desc, amount), i + enc_contrib(date, desc, amount).len())),
{
    reveal_strlit("{\"date\":");
    reveal_strlit(",\"description\":");
    reveal_strlit(",\"amount\":");
    reveal_strlit("}");
    let h = "{\"date\":"@;
    let m1 = ",\"description\":"@;
    let m2 = ",\"amount\":"@;
    let e = "}"@;
    let a = json::enc_str_tok(date);
    let b = json::enc_str_tok(desc);
    let c = json::enc_int_tok(amount);
    let r1 = a + (m1 + (b + (m2 + (c + e))));
    lemma_split_at(s, i, h, r1);
    let i1 = i + h.len() as int;
    lemma_split_at(s, i1, a, m1 + (b + (m2 + (c + e))));
    json::lemma_parse_str_of_enc(s, i1, date);
    let i2 = i1 + a.len() as int;
    lemma_split_at(s, i2, m1, b + (m2 + (c + e)));
    let i3 = i2 + m1.len() as int;
    lemma_split_at(s, i3, b, m2 + (c + e));
    json::lemma_parse_str_of_enc(s, i3, desc);
    let i4 = i3 + b.len() as int;
    lemma_split_at(s, i4, m2, c + e);
    let i5 = i4 + m2.len() as int;
    lemma_split_at(s, i5, c, e);
    let i6 = i5 + c.len() as int;
    assert(s.index(i6) == '}') by {
        assert(s.subrange(i6, i6 + e.len())[0] == e[0]);
    }
    json::lemma_parse_int_of_enc(s, i5, amount);
}

proof fn lemma_contrib_tail_round_trip(s: Seq<char>, i: int, items: Seq<(Seq<char>, Seq<char>, int)>)
    requires
        0 <= i,
        forall|k: int| 0 <= k < items.len() ==> i64::MIN <= (#[trigger] items[k]).2 <= i64::MAX,
        i + enc_contrib_tail(items).len() <= s.len(),
        s.subrange(i, i + enc_contrib_tail(items).len()) == enc_contrib_tail(items),
    ensures
        parse_contrib_tail(s, i) == Some((items, i + enc_contrib_tail(items).len())),
    decreases items.len(),
{
    reveal_strlit("]");
    reveal_strlit(",");
    if items.len() == 0 {
        assert(s.index(i) == ']') by {
            assert(s.subrange(i, i + 1)[0] == "]"@[0]);
        }
    } else {
        let c0 = items[0];
        let rest = items.drop_first();
        let a = enc_contrib(c0.0, c0.1, c0.2);
        lemma_split_at(s, i, ","@, a + enc_contrib_tail(rest));
        assert(s.index(i) == ',') by {
            assert(s.subrange(i, i + 1)[0] == ","@[0]);
        }
        let i1 = i + 1;
        lemma_split_at(s, i1, a, enc_contrib_tail(rest));
        lemma_contrib_item_round_trip(s, i1, c0.0, c0.1, c0.2);
        reveal_strlit("{\"date\":");
        let j = i1 + a.len() as int;
        lemma_contrib_tail_round_trip(s, j, rest);
        assert(seq![c0] + rest =~= items);
    }
}

proof fn lemma_contribs_round_trip_at(s: Seq<char>, i: int, items: Seq<(Seq<char>, Seq<char>, int)>)
    requires
        0 <= i,
        forall|k: int| 0 <= k < items.len() ==> i64::MIN <= (#[trigger] items[k]).2 <= i64::MAX,
        i + enc_contribs(items).len() <= s.len(),
        s.subrange(i, i + enc_contribs(items).len()) == enc_contribs(items),
    ensures
        parse_contribs(s, i) == Some((items, i + enc_contribs(items).len())),
    decreases items.len(),
{
    reveal_strlit("[]");
    reveal_strlit("[");
    reveal_strlit("]");
    reveal_strlit("{\"date\":");
    if items.len() == 0 {
        assert(s.index(i) == '[' && s.index(i + 1) == ']') by {
            assert(s.subrange(i, i + 2)[0] == "[]"@[0]);
            assert(s.subrange(i, i + 2)[1] == "[]"@[1]);
        }
    } else {
        let c0 = items[0];
        let rest = items.drop_first();
        let a = enc_contrib(c0.0, c0.1, c0.2);
        lemma_split_at(s, i, "["@, a + enc_contrib_tail(rest));
        assert(s.index(i) == '[') by {
            assert(s.subrange(i, i + 1)[0] == "["@[0]);
        }
        let i1 = i + 1;
        lemma_split_at(s, i1, a, enc_contrib_tail(rest));
        lemma_contrib_item_round_trip(s, i1, c0.0, c0.1, c0.2);
        assert(s.index(i1) == '{') by {
            assert(s.subrange(i1, i1 + a.len() as int)[0] == a[0]);
            assert(a[0] == "{\"date\":"@[0]);
        }
        let j = i1 + a.len() as int;
        lemma_contrib_tail_round_trip(s, j, rest);
        assert(seq![c0] + rest =~= items);
    }
}

/// Decoding an encoded saving-goal document returns the encoded fields and
/// contributions: the persist/load round trip is the identity on the goal.
proof fn lemma_goal_tail_round_trip(
    s: Seq<char>,
    i4: int,
    date: Seq<char>,
    contribs: Seq<(Seq<char>, Seq<char>, int)>,
)
    requires
        0 <= i4,
        forall|k: int| 0 <= k < contribs.len() ==> i64::MIN <= (#[trigger] contribs[k]).2 <= i64::MAX,
        i4 + (",\"target_date\":"@ + (json::enc_str_tok(date) + (",\"contributions\":"@ + (
        enc_contribs(contribs) + "}"@)))).len() == s.len(),
        s.subrange(i4, s.len() as int) == ",\"target_date\":"@ + (json::enc_str_tok(date) + (
        ",\"contributions\":"@ + (enc_contribs(contribs) + "}"@))),
    ensures
        ({
            let m2 = ",\"target_date\":"@;
            let m3 = ",\"contributions\":"@;
            let c = json::enc_str_tok(date);
            let d = enc_contribs(contribs);
            let i5 = i4 + m2.len();
            let i6 = i5 + c.len();
            let i7 = i6 + m3.len();
            let i8 = i7 + d.len();
            &&& s.index(i4) == ','
            &&& expect(s, i4, m2) == Some(i5)
            &&& json::parse_str_tok(s, i5) == Some((date, i6))
            &&& expect(s, i6, m3) == Some(i7)
            &&& parse_contribs(s, i7) == Some((contribs, i8))
            &&& expect(s, i8, "}"@) == Some(i8 + 1)
            &&& i8 + 1 == s.len()
        }),
{
    reveal_strlit(",\"target_date\":");
    reveal_strlit(",\"contributions\":");
    reveal_strlit("}");
    let m2 = ",\"target_date\":"@;
    let m3 = ",\"contributions\":"@;
    let e = "}"@;
    let c = json::enc_str_tok(date);
    let d = enc_contribs(contribs);
    lemma_split_at(s, i4, m2, c + (m3 + (d + e)));
    assert(s.index(i4) == ',') by {
        assert(s.subrange(i4, i4 + m2.len() as int)[0] == m2[0]);
    }
    let i5 = i4 + m2.len() as int;
    lemma_split_at(s, i5, c, m3 + (d + e));
    json::lemma_parse_str_of_enc(s, i5, date);
    let i6 = i5 + c.len() as int;
    lemma_split_at(s, i6, m3, d + e);
    let i7 = i6 + m3.len() as int;
    lemma_split_at(s, i7, d, e);
    lemma_contribs_round_trip_at(s, i7, contribs);
    let i8 = i7 + d.len() as int;
    assert(s.subrange(i8, i8 + e.len()) == e);
}

/// Decoding an encoded saving-goal document returns the encoded fields and
/// contributions: the persist/load round trip is the identity on the goal.
pub proof fn lemma_goal_round_trip(
    title: Seq<char>,
    target: int,
    date: Seq<char>,
    contribs: Seq<(Seq<char>, Seq<char>, int)>,
)
    requires
        i64::MIN <= target <= i64::MAX,
        forall|k: int| 0 <= k < contribs.len() ==> i64::MIN <= (#[trigger] contribs[k]).2 <= i64::MAX,
    ensures
        parse_goal(enc_goal(title, target, date, contribs)) == Some((title, target, date, contribs)),
{
    reveal_strlit("{\"title\":");
    reveal_strlit(",\"target_amount\":");
    let h = "{\"title\":"@;
    let m1 = ",\"target_amount\":"@;
    let a = json::enc_str_tok(title);
    let b = json::enc_int_tok(target);
    let s = enc_goal(title, target, date, contribs);
    let rest = ",\"target_date\":"@ + (json::enc_str_tok(date) + (",\"contributions\":"@ + (
    enc_contribs(contribs) + "}"@)));
    assert(s.subrange(0, s.len() as int) =~= s);
    assert(s == h + (a + (m1 + (b + rest))));
    lemma_split_at(s, 0, h, a + (m1 + (b + rest)));
    let i1 = h.len() as int;
    lemma_split_at(s, i1, a, m1 + (b + rest));
    json::lemma_parse_str_of_enc(s, i1, title);
    let i2 = i1 + a.len() as int;
    lemma_split_at(s, i2, m1, b + rest);
    let i3 = i2 + m1.len() as int;
    lemma_split_at(s, i3, b, rest);
    let i4 = i3 + b.len() as int;
    lemma_goal_tail_round_trip(s, i4, date, contribs);
    json::lemma_parse_int_of_enc(s, i3, target);
}

/// Appends one contribution object.
fn append_contrib(out: &mut String, c: &Contribution)
    ensures
        final(out)@ == old(out)@ + enc_contrib(c.date@, c.description@, c.amount as int),
{
    out.append("{\"date\":");
    json::append_str_tok(out, c.date.as_str());
    out.append(",\"description\":");
    json::append_str_tok(out, c.description.as_str());
    out.append(",\"amount\":");
    json::append_int_tok(out, c.amount);
    out.append("}");
    proof {
        assert(final(out)@ =~= old(out)@ + enc_contrib(c.date@, c.description@, c.amount as int));
    }
}

/// Appends the contribution array.
fn append_contribs(out: &mut String, items: &Vec<Contribution>)
    ensures
        final(out)@ == old(out)@ + enc_contribs(contrib_views(items@)),
{
    let ghost views = contrib_views(items@);
    if items.len() == 0 {
        out.append("[]");
        proof {
            assert(final(out)@ =~= old(out)@ + enc_contribs(views));
        }
        return ;
    }
    out.append("[");
    append_contrib(out, &items[0]);
    let mut j: usize = 1;
    proof {
        assert(views.skip(1) =~= views.drop_first());
        assert(out@ + enc_contrib_tail(views.skip(1)) =~= old(out)@ + enc_contribs(views));
    }
    while j < items.len()
        invariant
            1 <= j <= items@.len(),
            views == contrib_views(items@),
            out@ + enc_contrib_tail(views.skip(j as int)) == old(out)@ + enc_contribs(views),
        decreases items@.len() - j,
    {
        let ghost pre = out@;
        out.append(",");
        append_contrib(out, &items[j]);
        proof {
            assert(views.skip(j as int).drop_first() =~= views.skip(j as int + 1));
            assert(views.skip(j as int)[0] == views[j as int]);
            assert(enc_contrib_tail(views.skip(j as int)) == ","@ + (enc_contrib(
                views[j as int].0,
                views[j as int].1,
                views[j as int].2,
            ) + enc_contrib_tail(views.skip(j as int + 1))));
            assert(out@ + enc_contrib_tail(views.skip(j as int + 1)) =~= pre + enc_contrib_tail(
                views.skip(j as int),
            ));
        }
        j += 1;
    }
    out.append("]");
    proof {
        assert(views.skip(items@.len() as int) =~= Seq::<(Seq<char>, Seq<char>, int)>::empty());
        assert(final(out)@ =~= old(out)@ + enc_contribs(views));
    }
}

/// Encodes the saving-goal entity.
#[verifier::rlimit(60)]
pub fn encode_goal(g: &SavingGoalState) -> (r: String)
    ensures
        r@ == enc_goal(g.title@, g.target_amount as int, g.target_date@, contrib_views(
            g.contributions@,
        )),
{
    let mut out = String::new();
    out.append("{\"title\":");
    json::append_str_tok(&mut out, g.title.as_str());
    out.append(",\"target_amount\":");
    json::append_int_tok(&mut out, g.target_amount);
    out.append(",\"target_date\":");
    json::append_str_tok(&mut out, g.target_date.as_str());
    out.append(",\"contributions\":");
    append_contribs(&mut out, &g.contributions);
    out.append("}");
    proof {
        assert(out@ =~= enc_goal(
            g.title@,
            g.target_amount as int,
            g.target_date@,
            contrib_views(g.contributions@),
        ));
    }
    out
}

/// Reads one contribution object, as `parse_contrib` does.
fn read_contrib(s: &str, i: usize) -> (r: Option<(Contribution, usize)>)
    requires
        i <= s@.len(),
    ensures
        match r {
            Some((c, j)) => parse_contrib(s@, i as int) == Some(
                ((c.date@, c.description@, c.amount as int), j as int),
            ) && i as int + 1 < j as int <= s@.len(),
            None => parse_contrib(s@, i as int) is None,
        },
{
    let i1 = match expect_lit(s, i, "{\"date\":") {
        Some(j) => j,
        None => {
            return None;
        },
    };
    let (date, i2) = match json::read_str_tok(s, i1) {
        Some(p) => p,
        None => {
            return None;
        },
    };
    let i3 = match expect_lit(s, i2, ",\"description\":") {
        Some(j) => j,
        None => {
            return None;
        },
    };
    let (desc, i4) = match json::read_str_tok(s, i3) {
        Some(p) => p,
        None => {
            return None;
        },
    };
    let i5 = match expect_lit(s, i4, ",\"amount\":") {
        Some(j) => j,
        None => {
            return None;
        },
    };
    let (v, i6) = match json::read_int_tok(s, i5) {
        Some(p) => p,
        None => {
            return None;
        },
    };
    let i7 = match expect_lit(s, i6, "}") {
        Some(j) => j,
        None => {
            return None;
        },
    };
    proof {
        reveal_strlit("{\"date\":");
        assert(i as int + 1 < i1 as int);
    }
    Some((Contribution { date, description: desc, amount: v }, i7))
}

/// Reads a contribution array at position `i`, as `parse_contribs` does.
fn read_contribs(s: &str, i: usize) -> (r: Option<(Vec<Contribution>, usize)>)
    requires
        i <= s@.len(),
    ensures
        match r {
            Some((v, j)) => parse_contribs(s@, i as int) == Some(
                (contrib_views(v@), j as int),
            ) && i < j <= s@.len(),
            None => parse_contribs(s@, i as int) is None,
        },
{
    let len = s.unicode_len();
    if i >= len || s.get_char(i) as u32 != 91 {
        proof {
            if i < len {
                assert(s@[i as int] != '[');
            }
        }
        return None;
    }
    proof {
        assert(s@[i as int] == '[');
    }
    if i + 1 < len && s.get_char(i + 1) as u32 == 93 {
        proof {
            assert(s@[i as int + 1] == ']');
        }
        let empty: Vec<Contribution> = Vec::new();
        proof {
            assert(contrib_views(empty@) =~= Seq::<(Seq<char>, Seq<char>, int)>::empty());
        }
        return Some((empty, i + 2));
    }
    proof {
        if i + 1 < len {
            assert(s@[i as int + 1] != ']');
        }
    }
    let mut acc: Vec<Contribution> = Vec::new();
    let (c0, first_end) = match read_contrib(s, i + 1) {
        Some(p) => p,
        None => {
            return None;
        },
    };
    acc.push(c0);
    proof {
        assert(contrib_views(acc@) =~= seq![(c0.date@, c0.description@, c0.amount as int)]);
        assert forall|rest: Seq<(Seq<char>, Seq<char>, int)>|
            seq![(c0.date@, c0.description@, c0.amount as int)] + rest == contrib_views(acc@)
                + rest by {
            assert(seq![(c0.date@, c0.description@, c0.amount as int)] + rest =~= contrib_views(
                acc@,
            ) + rest);
        }
    }
    let mut pos: usize = first_end;
    while pos < len
        invariant
            len == s@.len(),
            i as int + 1 < pos as int <= len,
            match parse_contrib_tail(s@, pos as int) {
                Some(p) => parse_contribs(s@, i as int) == Some(
                    (contrib_views(acc@) + p.0, p.1),
                ),
                None => parse_contribs(s@, i as int) is None,
            },
        decreases len - pos,
    {
        let c = s.get_char(pos) as u32;
        if c == 93 {
            proof {
                assert(s@[pos as int] == ']');
                assert(parse_contrib_tail(s@, pos as int) == Some(
                    (Seq::<(Seq<char>, Seq<char>, int)>::empty(), pos as int + 1),
                ));
                assert(contrib_views(acc@) + Seq::<(Seq<char>, Seq<char>, int)>::empty()
                    =~= contrib_views(acc@));
            }
            return Some((acc, pos + 1));
        }
        if c != 44 {
            proof {
                assert(s@[pos as int] != ']' && s@[pos as int] != ',');
            }
            return None;
        }
        proof {
            assert(s@[pos as int] == ',');
        }
        let (cb, j) = match read_contrib(s, pos + 1) {
            Some(p) => p,
            None => {
                return None;
            },
        };
        let ghost old_acc = acc@;
        acc.push(cb);
        proof {
            assert(contrib_views(acc@) =~= contrib_views(old_acc) + seq![
                (cb.date@, cb.description@, cb.amount as int),
            ]);
            assert forall|rest: Seq<(Seq<char>, Seq<char>, int)>|
                contrib_views(old_acc) + (seq![(cb.date@, cb.description@, cb.amount as int)]
                    + rest) == contrib_views(acc@) + rest by {
                assert(contrib_views(old_acc) + (seq![(cb.date@, cb.description@, cb.amount as int)]
                    + rest) =~= contrib_views(acc@) + rest);
            }
        }
        pos = j;
    }
    proof {
        assert(parse_contrib_tail(s@, pos as int) is None);
    }
    None
}

/// The goal invariants over decoded views: a non-negative target and
/// strictly positive contributions.
pub open spec fn goal_views_wf(target: int, contribs: Seq<(Seq<char>, Seq<char>, int)>) -> bool {
    &&& target >= 0
    &&& forall|i: int| 0 <= i < contribs.len() ==> (#[trigger] contribs[i]).2 >= 1
}

/// Whether the decoded goal satisfies its invariants.
fn goal_valid(g: &SavingGoalState) -> (r: bool)
    ensures
        r == g.wf(),
{
    if g.target_amount < 0 {
        return false;
    }
    let mut i: usize = 0;
    while i < g.contributions.len()
        invariant
            i <= g.contributions@.len(),
            forall|a: int| 0 <= a < i ==> (#[trigger] g.contributions@[a]).wf(),
        decreases g.contributions@.len() - i,
    {
        if g.contributions[i].amount < 1 {
            return false;
        }
        i += 1;
    }
    true
}

proof fn lemma_goal_wf_views(g: SavingGoalState)
    ensures
        g.wf() == goal_views_wf(g.target_amount as int, contrib_views(g.contributions@)),
{
    let views = contrib_views(g.contributions@);
    assert(forall|i: int|
        0 <= i < g.contributions@.len() ==> #[trigger] views[i] == (
            g.contributions@[i].date@,
            g.contributions@[i].description@,
            g.contributions@[i].amount as int,
        ));
    if g.wf() {
        assert forall|i: int| 0 <= i < views.len() implies (#[trigger] views[i]).2 >= 1 by {
            assert(g.contributions@[i].wf());
        }
    }
    if goal_views_wf(g.target_amount as int, views) {
        assert forall|i: int|
            0 <= i < g.contributions@.len() implies (#[trigger] g.contributions@[i]).wf() by {
            assert(views[i].2 >= 1);
        }
    }
}

/// Decodes a saving-goal document: the parsed goal when the text is well
/// formed and the decoded goal keeps its invariants.
pub fn decode_goal(s: &str) -> (r: Option<SavingGoalState>)
    ensures
        match r {
            Some(g) => parse_goal(s@) == Some(
                (g.title@, g.target_amount as int, g.target_date@, contrib_views(g.contributions@)),
            ) && g.wf(),
            None => match parse_goal(s@) {
                Some(p) => !goal_views_wf(p.1, p.3),
                None => true,
            },
        },
{
    match decode_goal_fields(s) {
        Some(g) => {
            let valid = goal_valid(&g);
            proof {
                lemma_goal_wf_views(g);
            }
            if valid {
                Some(g)
            } else {
                None
            }
        },
        None => None,
    }
}

/// Reads the raw fields of a saving-goal document.
fn decode_goal_fields(s: &str) -> (r: Option<SavingGoalState>)
    ensures
        match r {
            Some(g) => parse_goal(s@) == Some(
                (g.title@, g.target_amount as int, g.target_date@, contrib_views(g.contributions@)),
            ),
            None => parse_goal(s@) is None,
        },
{
    let len = s.unicode_len();
    let i1 = match expect_lit(s, 0, "{\"title\":") {
        Some(j) => j,
        None => {
            return None;
        },
    };
    let (title, i2) = match json::read_str_tok(s, i1) {
        Some(p) => p,
        None => {
            return None;
        },
    };
    let i3 = match expect_lit(s, i2, ",\"target_amount\":") {
        Some(j) => j,
        None => {
            return None;
        },
    };
    let (target, i4) = match json::read_int_tok(s, i3) {
        Some(p) => p,
        None => {
            return None;
        },
    };
    let i5 = match expect_lit(s, i4, ",\"target_date\":") {
        Some(j) => j,
        None => {
            return None;
        },
    };
    let (date, i6) = match json::read_str_tok(s, i5) {
        Some(p) => p,
        None => {
            return None;
        },
    };
    let i7 = match expect_lit(s, i6, ",\"contributions\":") {
        Some(j) => j,
        None => {
            return None;
        },
    };
    let (contributions, i8) = match read_contribs(s, i7) {
        Some(p) => p,
        None => {
            return None;
        },
    };
    let i9 = match expect_lit(s, i8, "}") {
        Some(j) => j,
        None => {
            return None;
        },
    };
    if i9 != len {
        return None;
    }
    Some(SavingGoalState { title, target_amount: target, target_date: date, contributions })
}

/// The client-resident store: one slot of raw text per persisted key.
/// Writes are last-writer-wins per key; the keys are independent.
pub struct ConfigStore {
    pub settings_raw: Option<String>,
    pub budgets_raw: Option<String>,
    pub goal_raw: Option<String>,
}

impl ConfigStore {
    /// An empty store: nothing persisted yet.
    pub fn new() -> (r: ConfigStore)
        ensures
            r.settings_raw is None,
            r.budgets_raw is None,
            r.goal_raw is None,
    {
        ConfigStore { settings_raw: None, budgets_raw: None, goal_raw: None }
    }

    /// Persists the settings entity under its key; the other keys keep
    /// their contents.
    pub fn save_settings(&mut self, s: &AppSettings)
        ensures
            final(self).settings_raw matches Some(raw) && raw@ == enc_settings(
                s.currency_code@,
                s.currency_symbol@,
            ),
            final(self).budgets_raw == old(self).budgets_raw,
            final(self).goal_raw == old(self).goal_raw,
    {
        self.settings_raw = Some(encode_settings(s));
    }

    /// Loads the settings entity: the decoded stored value, or the default
    /// (Philippine peso) when the key is absent or does not decode.
    pub fn load_settings(&self) -> (r: AppSettings)
        ensures
            match self.settings_raw {
                Some(raw) => match parse_settings(raw@) {
                    Some(p) => r.currency_code@ == p.0 && r.currency_symbol@ == p.1,
                    None => r.currency_code@ == "PHP"@ && r.currency_symbol@ == "₱"@,
                },
                None => r.currency_code@ == "PHP"@ && r.currency_symbol@ == "₱"@,
            },
    {
        match &self.settings_raw {
            Some(raw) => match decode_settings(raw.as_str()) {
                Some(st) => st,
                None => settings::default_settings(),
            },
            None => settings::default_settings(),
        }
    }

    /// Persists the whole budget collection under its key.
    pub fn save_budgets(&mut self, items: &Vec<BudgetItem>)
        ensures
            final(self).budgets_raw matches Some(raw) && raw@ == enc_budgets(budget_views(items@)),
            final(self).settings_raw == old(self).settings_raw,
            final(self).goal_raw == old(self).goal_raw,
    {
        self.budgets_raw = Some(encode_budgets(items));
    }

    /// Loads the budget collection: the decoded stored items, or an empty
    /// collection when the key is absent, does not decode, or breaks the
    /// budget invariants. The result always keeps those invariants.
    pub fn load_budgets(&self) -> (r: Vec<BudgetItem>)
        ensures
            crate::model::budgets_wf(r@),
            match self.budgets_raw {
                Some(raw) => match parse_budgets(raw@) {
                    Some(views) => if budget_views_wf(views) {
                        budget_views(r@) == views
                    } else {
                        r@.len() == 0
                    },
                    None => r@.len() == 0,
                },
                None => r@.len() == 0,
            },
    {
        match &self.budgets_raw {
            Some(raw) => match decode_budgets(raw.as_str()) {
                Some(items) => items,
                None => Vec::new(),
            },
            None => Vec::new(),
        }
    }

    /// Persists the saving goal under its key.
    pub fn save_saving_goal(&mut self, g: &SavingGoalState)
        ensures
            final(self).goal_raw matches Some(raw) && raw@ == enc_goal(
                g.title@,
                g.target_amount as int,
                g.target_date@,
                contrib_views(g.contributions@),
            ),
            final(self).settings_raw == old(self).settings_raw,
            final(self).budgets_raw == old(self).budgets_raw,
    {
        self.goal_raw = Some(encode_goal(g));
    }

    /// Loads the saving goal: the decoded stored goal, or the documented
    /// default — the empty/zero goal — when the key is absent, does not
    /// decode, or breaks the goal invariants. The result always keeps
    /// those invariants.
    pub fn load_saving_goal(&self) -> (r: SavingGoalState)
        ensures
            r.wf(),
            match self.goal_raw {
                Some(raw) => match parse_goal(raw@) {
                    Some(p) => if goal_views_wf(p.1, p.3) {
                        r.title@ == p.0 && r.target_amount as int == p.1 && r.target_date@ == p.2
                            && contrib_views(r.contributions@) == p.3
                    } else {
                        r.title@.len() == 0 && r.target_amount == 0 && r.target_date@.len() == 0
                            && r.contributions@.len() == 0
                    },
                    None => r.title@.len() == 0 && r.target_amount == 0 && r.target_date@.len()
                        == 0 && r.contributions@.len() == 0,
                },
                None => r.title@.len() == 0 && r.target_amount == 0 && r.target_date@.len() == 0
                    && r.contributions@.len() == 0,
            },
    {
        match &self.goal_raw {
            Some(raw) => match decode_goal(raw.as_str()) {
                Some(g) => g,
                None => crate::goal::clear_goal(),
            },
            None => crate::goal::clear_goal(),
        }
    }
}

} // verus!
