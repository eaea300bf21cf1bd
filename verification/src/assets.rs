//! Invention assets: JSON Pointer lookups into loaded asset documents and
//! the `{"$asset": name, "path": pointer}` references in module configs
//! that splice them in.

use vstd::prelude::*;
use crate::invention::{Invention, InventionV, ModuleSpec, ModuleSpecV, copy_string};
use crate::json::{Json, JsonV, items_view, json_clone, lemma_items_view, lemma_members_view, members_view};
use crate::score::{get, score_problem, validate_score, SCORE_SCHEMA_V1};
use crate::text::{all_digits, chars_of, digit_value, digits_value, first_index, is_digit, push_chars, push_str, string_of};

verus! {

// ---------------------------------------------------------------------------
// JSON Pointer (RFC 6901)

/// The tokens of `s` between `/` separators.
pub open spec fn split_tokens(s: Seq<char>) -> Seq<Seq<char>>
    decreases s.len(),
{
    match first_index(s, '/', 0) {
        None => seq![s],
        Some(d) => if 0 <= d < s.len() { seq![s.take(d)] + split_tokens(s.skip(d + 1)) } else { seq![s] },
    }
}

/// `s` with each occurrence of the pair `a b` replaced by `r`, scanning
/// left to right (`str::replace`).
pub open spec fn replace_pair(s: Seq<char>, a: char, b: char, r: char) -> Seq<char>
    decreases s.len(),
{
    if s.len() < 2 {
        s
    } else if s[0] == a && s[1] == b {
        seq![r] + replace_pair(s.skip(2), a, b, r)
    } else {
        seq![s[0]] + replace_pair(s.skip(1), a, b, r)
    }
}

/// A reference token with its escapes undone: `~1` is `/`, then `~0` is `~`.
pub open spec fn unescape(t: Seq<char>) -> Seq<char> {
    replace_pair(replace_pair(t, '~', '1', '/'), '~', '0', '~')
}

/// An array index token: decimal digits without a sign or a leading zero,
/// naming an element of an array of length `n`.
pub open spec fn index_spec(t: Seq<char>, n: int) -> Option<int> {
    if t.len() == 0 || !all_digits(t) || (t[0] == '0' && t.len() != 1) || digits_value(t) >= n {
        None
    } else {
        Some(digits_value(t))
    }
}

/// One step of a pointer: an object member by name, an array element by
/// index.
pub open spec fn pointer_step(v: JsonV, token: Seq<char>) -> Option<JsonV> {
    match v {
        JsonV::Object(m) => get(m, token),
        JsonV::Array(l) => match index_spec(token, l.len() as int) {
            Some(i) => Some(l[i]),
            None => None,
        },
        _ => None,
    }
}

/// The value after the first `k` tokens.
pub open spec fn walk(v: JsonV, tokens: Seq<Seq<char>>, k: int) -> Option<JsonV>
    decreases k,
{
    if k <= 0 || k > tokens.len() {
        Some(v)
    } else {
        match walk(v, tokens, k - 1) {
            Some(x) => pointer_step(x, unescape(tokens[k - 1])),
            None => None,
        }
    }
}

/// The value a JSON Pointer names: the whole document for the empty
/// pointer; otherwise the pointer starts with `/` and each token steps in.
pub open spec fn pointer_spec(v: JsonV, p: Seq<char>) -> Option<JsonV> {
    if p.len() == 0 {
        Some(v)
    } else if p[0] != '/' {
        None
    } else {
        let tokens = split_tokens(p.drop_first());
        walk(v, tokens, tokens.len() as int)
    }
}

proof fn lemma_first_slash(s: Seq<char>, from: int)
    requires
        0 <= from,
    ensures
        first_index(s, '/', from) matches Some(d) ==> from <= d < s.len() && s[d] == '/'
            && forall|k: int| from <= k < d ==> s[k] != '/',
        first_index(s, '/', from) is None ==> forall|k: int| from <= k < s.len() ==> s[k] != '/',
    decreases s.len() - from,
{
    if from < s.len() && s[from] != '/' {
        lemma_first_slash(s, from + 1);
    }
}

/// `first_index` from position 0 of a suffix.
proof fn lemma_first_slash_skip(s: Seq<char>, start: int, from: int)
    requires
        0 <= start <= s.len(),
        0 <= from,
    ensures
        first_index(s.skip(start), '/', from) == (match first_index(s, '/', start + from) {
            Some(d) => Some(d - start),
            None => None,
        }),
    decreases s.len() - start - from,
{
    if start + from < s.len() && s[start + from] != '/' {
        lemma_first_slash_skip(s, start, from + 1);
    }
}

fn split_exec(s: &Vec<char>) -> (r: Vec<Vec<char>>)
    ensures
        Seq::new(r@.len(), |i: int| r@[i]@) == split_tokens(s@),
{
    let mut out: Vec<Vec<char>> = Vec::new();
    let mut start: usize = 0;
    proof {
        assert(s@.skip(0) =~= s@);
        assert(Seq::new(out@.len(), |i: int| out@[i]@) + split_tokens(s@) =~= split_tokens(s@));
    }
    loop
        invariant
            start <= s@.len(),
            Seq::new(out@.len(), |i: int| out@[i]@) + split_tokens(s@.skip(start as int)) == split_tokens(s@),
        decreases s@.len() - start,
    {
        let ghost rest = s@.skip(start as int);
        let mut d: usize = start;
        while d < s.len() && s[d] != '/'
            invariant
                start <= d <= s@.len(),
                forall|k: int| start <= k < d ==> s@[k] != '/',
            decreases s@.len() - d,
        {
            d = d + 1;
        }
        let mut tok: Vec<char> = Vec::new();
        let mut i: usize = start;
        while i < d
            invariant
                start <= i <= d,
                d <= s@.len(),
                tok@ == s@.subrange(start as int, i as int),
            decreases d - i,
        {
            tok.push(s[i]);
            i = i + 1;
            proof {
                assert(tok@ =~= s@.subrange(start as int, i as int));
            }
        }
        let ghost before = Seq::new(out@.len(), |i: int| out@[i]@);
        proof {
            lemma_first_slash(s@, start as int);
            lemma_first_slash_skip(s@, start as int, 0);
        }
        if d == s.len() {
            out.push(tok);
            proof {
                assert(first_index(s@, '/', start as int) is None) by {
                    if first_index(s@, '/', start as int) is Some {
                        let x = first_index(s@, '/', start as int)->Some_0;
                        assert(s@[x] == '/');
                    }
                }
                assert(rest =~= s@.subrange(start as int, d as int));
                assert(split_tokens(rest) == seq![rest]);
                assert(Seq::new(out@.len(), |i: int| out@[i]@) =~= before + seq![rest]);
            }
            return out;
        }
        out.push(tok);
        proof {
            assert(first_index(s@, '/', start as int) == Some(d as int)) by {
                if first_index(s@, '/', start as int) != Some(d as int) {
                    if first_index(s@, '/', start as int) is Some {
                        let x = first_index(s@, '/', start as int)->Some_0;
                        assert(x < d || x > d);
                    }
                }
            }
            let dd = d - start;
            assert(rest.take(dd) =~= s@.subrange(start as int, d as int));
            assert(rest.skip(dd + 1) =~= s@.skip(d + 1));
            assert(split_tokens(rest) == seq![rest.take(dd)] + split_tokens(rest.skip(dd + 1)));
            assert(Seq::new(out@.len(), |i: int| out@[i]@) =~= before + seq![rest.take(dd)]);
        }
        start = d + 1;
    }
}

fn replace_pair_exec(s: &Vec<char>, a: char, b: char, r: char) -> (out: Vec<char>)
    ensures
        out@ == replace_pair(s@, a, b, r),
{
    let mut out: Vec<char> = Vec::new();
    let mut i: usize = 0;
    proof {
        assert(s@.skip(0) =~= s@);
        assert(out@ + replace_pair(s@, a, b, r) =~= replace_pair(s@, a, b, r));
    }
    while i < s.len()
        invariant
            i <= s@.len(),
            out@ + replace_pair(s@.skip(i as int), a, b, r) == replace_pair(s@, a, b, r),
        decreases s@.len() - i,
    {
        let ghost rest = s@.skip(i as int);
        if i + 1 < s.len() && s[i] == a && s[i + 1] == b {
            proof {
                assert(rest[0] == a && rest[1] == b);
                assert(rest.skip(2) =~= s@.skip(i + 2));
                assert(replace_pair(rest, a, b, r) == seq![r] + replace_pair(s@.skip(i + 2), a, b, r));
            }
            let ghost before = out@;
            out.push(r);
            proof {
                assert(out@ + replace_pair(s@.skip(i + 2), a, b, r) =~= before + replace_pair(rest, a, b, r));
            }
            i = i + 2;
        } else {
            proof {
                assert(rest.skip(1) =~= s@.skip(i + 1));
                if rest.len() < 2 {
                    assert(rest =~= seq![s@[i as int]]);
                    assert(s@.skip(i + 1) =~= Seq::<char>::empty());
                    assert(replace_pair(rest, a, b, r) == seq![s@[i as int]] + replace_pair(s@.skip(i + 1), a, b, r));
                } else {
                    assert(replace_pair(rest, a, b, r) == seq![s@[i as int]] + replace_pair(s@.skip(i + 1), a, b, r));
                }
            }
            let ghost before = out@;
            out.push(s[i]);
            proof {
                assert(out@ + replace_pair(s@.skip(i + 1), a, b, r) =~= before + replace_pair(rest, a, b, r));
            }
            i = i + 1;
        }
    }
    proof {
        assert(s@.skip(s@.len() as int) =~= Seq::<char>::empty());
        assert(out@ =~= out@ + replace_pair(s@.skip(i as int), a, b, r));
    }
    out
}

proof fn lemma_digits_grow(t: Seq<char>, i: int)
    requires
        0 <= i <= t.len(),
        all_digits(t),
    ensures
        digits_value(t.take(i)) <= digits_value(t),
        digits_value(t.take(i)) >= 0,
    decreases t.len() - i,
{
    if i < t.len() {
        lemma_digits_grow(t, i + 1);
        assert(t.take(i + 1).drop_last() =~= t.take(i));
        assert(is_digit(t[i]));
    } else {
        assert(t.take(i) =~= t);
    }
    lemma_digits_nonneg(t.take(i));
}

proof fn lemma_digits_nonneg(t: Seq<char>)
    requires
        all_digits(t),
    ensures
        digits_value(t) >= 0,
    decreases t.len(),
{
    if t.len() > 0 {
        lemma_digits_nonneg(t.drop_last());
        assert(is_digit(t[t.len() - 1]));
    }
}

fn index_exec(t: &Vec<char>, n: usize) -> (r: Option<usize>)
    ensures
        match index_spec(t@, n as int) {
            Some(i) => r == Some(i as usize),
            None => r is None,
        },
        r matches Some(j) ==> j < n && index_spec(t@, n as int) == Some(j as int),
{
    if t.len() == 0 {
        return None;
    }
    if t[0] == '0' && t.len() != 1 {
        return None;
    }
    if n == 0 {
        proof {
            if all_digits(t@) {
                lemma_digits_nonneg(t@);
            }
        }
        return None;
    }
    let mut v: usize = 0;
    proof {
        assert(t@.take(0) =~= Seq::<char>::empty());
    }
    let mut i: usize = 0;
    while i < t.len()
        invariant
            i <= t@.len(),
            t@.len() > 0,
            all_digits(t@.take(i as int)),
            v == digits_value(t@.take(i as int)),
            v < n,
        decreases t@.len() - i,
    {
        let c = t[i];
        if !('0' <= c && c <= '9') {
            proof {
                assert(!is_digit(t@[i as int]));
            }
            return None;
        }
        proof {
            assert(t@.take(i + 1).drop_last() =~= t@.take(i as int));
            assert(t@.take(i + 1).last() == c);
        }
        let dv = (c as u32 - '0' as u32) as u128;
        let nv: u128 = (v as u128) * 10 + dv;
        proof {
            assert(dv == digit_value(c));
            assert(digits_value(t@.take(i + 1)) == v * 10 + dv);
        }
        if nv >= n as u128 {
            proof {
                if all_digits(t@) {
                    lemma_digits_grow(t@, i + 1);
                }
            }
            return None;
        }
        v = nv as usize;
        i = i + 1;
        proof {
            assert forall|k: int| 0 <= k < i implies is_digit(#[trigger] t@.take(i as int)[k]) by {
                if k < i - 1 {
                    assert(t@.take(i as int)[k] == t@.take(i - 1)[k]);
                }
            }
        }
    }
    proof {
        assert(t@.take(t@.len() as int) =~= t@);
    }
    Some(v)
}

} // verus!

verus! {

fn member_index(m: &Vec<(String, Json)>, key: &Vec<char>) -> (r: Option<usize>)
    ensures
        ({
            let mv = members_view(m@);
            match get(mv, key@) {
                Some(v) => r matches Some(i) && i < m@.len() && m@[i as int].1.view() == v,
                None => r is None,
            }
        }),
{
    let ghost mv = members_view(m@);
    proof {
        lemma_members_view(m@);
    }
    let mut i: usize = 0;
    while i < m.len()
        invariant
            i <= m@.len(),
            mv == members_view(m@),
            mv.len() == m@.len(),
            forall|j: int| 0 <= j < m@.len() ==> #[trigger] mv[j] == (m@[j].0@, m@[j].1.view()),
            get(mv, key@) == crate::reload::member(mv, key@, i as int),
        decreases m.len() - i,
    {
        if crate::text::chars_eq(key, m[i].0.as_str()) {
            return Some(i);
        }
        i = i + 1;
    }
    None
}

proof fn lemma_walk_stays_none(v: JsonV, tokens: Seq<Seq<char>>, k: int, n: int)
    requires
        0 <= k <= n <= tokens.len(),
        walk(v, tokens, k) is None,
    ensures
        walk(v, tokens, n) is None,
    decreases n - k,
{
    if k < n {
        lemma_walk_stays_none(v, tokens, k, n - 1);
    }
}

/// The value a JSON Pointer names in `v` (see [`pointer_spec`]), copied.
pub fn json_pointer(v: &Json, p: &str) -> (r: Option<Json>)
    ensures
        match pointer_spec(v.view(), p@) {
            Some(x) => r matches Some(y) && y.view() == x,
            None => r is None,
        },
{
    let pc = chars_of(p);
    if pc.len() == 0 {
        return Some(json_clone(v));
    }
    if pc[0] != '/' {
        return None;
    }
    let mut rest: Vec<char> = Vec::new();
    let mut i: usize = 1;
    while i < pc.len()
        invariant
            1 <= i <= pc@.len(),
            rest@ == pc@.subrange(1, i as int),
        decreases pc@.len() - i,
    {
        rest.push(pc[i]);
        i = i + 1;
        proof {
            assert(rest@ =~= pc@.subrange(1, i as int));
        }
    }
    proof {
        assert(rest@ =~= p@.drop_first());
        assert(p@[0] == '/');
    }
    let toks = split_exec(&rest);
    let ghost tv = Seq::new(toks@.len(), |i: int| toks@[i]@);
    let mut cur: &Json = v;
    let mut k: usize = 0;
    while k < toks.len()
        invariant
            k <= toks@.len(),
            tv == Seq::new(toks@.len(), |i: int| toks@[i]@),
            p@.len() > 0,
            p@[0] == '/',
            tv == split_tokens(p@.drop_first()),
            walk(v.view(), tv, k as int) == Some(cur.view()),
        decreases toks@.len() - k,
    {
        let t1 = replace_pair_exec(&toks[k], '~', '1', '/');
        let t = replace_pair_exec(&t1, '~', '0', '~');
        proof {
            assert(t@ == unescape(tv[k as int]));
        }
        match cur {
            Json::Object(m) => match member_index(m, &t) {
                Some(j) => {
                    cur = &m[j].1;
                },
                None => {
                    proof {
                        lemma_walk_stays_none(v.view(), tv, k + 1, tv.len() as int);
                    }
                    return None;
                },
            },
            Json::Array(l) => {
                proof {
                    lemma_items_view(l@);
                }
                match index_exec(&t, l.len()) {
                    Some(j) => {
                        cur = &l[j];
                    },
                    None => {
                        proof {
                            lemma_walk_stays_none(v.view(), tv, k + 1, tv.len() as int);
                        }
                        return None;
                    },
                }
            },
            _ => {
                proof {
                    lemma_walk_stays_none(v.view(), tv, k + 1, tv.len() as int);
                }
                return None;
            },
        }
        k = k + 1;
    }
    Some(json_clone(cur))
}

} // verus!

verus! {

// ---------------------------------------------------------------------------
// Asset references

/// Every member is named `$asset` or `path`.
pub open spec fn only_ref_keys(m: Seq<(Seq<char>, JsonV)>) -> bool {
    forall|i: int| 0 <= i < m.len() ==> (#[trigger] m[i]).0 == "$asset"@ || m[i].0 == "path"@
}

/// What an asset reference object stands for: the named asset, or the
/// part of it its `path` pointer names.
pub open spec fn asset_ref_spec(m: Seq<(Seq<char>, JsonV)>, assets: Seq<(Seq<char>, JsonV)>) -> Result<JsonV, Seq<char>> {
    match get(m, "$asset"@) {
        Some(JsonV::String(name)) => if !only_ref_keys(m) {
            Err("asset reference objects may only contain '$asset' and 'path'"@)
        } else {
            match crate::reload::member(assets, name, 0) {
                None => Err("Unknown asset reference '"@ + name + "'"@),
                Some(a) => match get(m, "path"@) {
                    None => Ok(a),
                    Some(JsonV::String(p)) => if p.len() > 0 && p[0] != '/' {
                        Err("asset reference path '"@ + p + "' must be a JSON Pointer starting with '/'"@)
                    } else {
                        match pointer_spec(a, p) {
                            Some(x) => Ok(x),
                            None => Err("Asset reference '"@ + name + "' does not contain JSON Pointer '"@ + p + "'"@),
                        }
                    },
                    Some(_) => Err("asset reference path must be a string"@),
                },
            }
        },
        _ => Err("$asset must be a string"@),
    }
}

/// A config with its asset references resolved: arrays and objects
/// element by element (the first error wins), an object with an `$asset`
/// member replaced by what it refers to, anything else as it is.
pub open spec fn resolve_spec(v: JsonV, assets: Seq<(Seq<char>, JsonV)>) -> Result<JsonV, Seq<char>>
    decreases v, 0int,
{
    match v {
        JsonV::Array(items) => match resolve_items(items, assets, items.len() as int) {
            Ok(xs) => Ok(JsonV::Array(xs)),
            Err(e) => Err(e),
        },
        JsonV::Object(m) => if get(m, "$asset"@) is Some {
            asset_ref_spec(m, assets)
        } else {
            match resolve_members(m, assets, m.len() as int) {
                Ok(ms) => Ok(JsonV::Object(ms)),
                Err(e) => Err(e),
            }
        },
        _ => Ok(v),
    }
}

pub open spec fn resolve_items(items: Seq<JsonV>, assets: Seq<(Seq<char>, JsonV)>, k: int) -> Result<Seq<JsonV>, Seq<char>>
    decreases items, k,
{
    if k <= 0 || k > items.len() {
        Ok(Seq::empty())
    } else {
        match resolve_items(items, assets, k - 1) {
            Err(e) => Err(e),
            Ok(xs) => match resolve_spec(items[k - 1], assets) {
                Ok(x) => Ok(xs.push(x)),
                Err(e) => Err(e),
            },
        }
    }
}

pub open spec fn resolve_members(m: Seq<(Seq<char>, JsonV)>, assets: Seq<(Seq<char>, JsonV)>, k: int) -> Result<Seq<(Seq<char>, JsonV)>, Seq<char>>
    decreases m, k,
{
    if k <= 0 || k > m.len() {
        Ok(Seq::empty())
    } else {
        match resolve_members(m, assets, k - 1) {
            Err(e) => Err(e),
            Ok(xs) => {
                proof {
                    assert(decreases_to!(m => m[k - 1]));
                }
                match resolve_spec(m[k - 1].1, assets) {
                    Ok(x) => Ok(xs.push((m[k - 1].0, x))),
                    Err(e) => Err(e),
                }
            },
        }
    }
}

} // verus!

verus! {

pub open spec fn assets_view(a: Seq<(String, Json)>) -> Seq<(Seq<char>, JsonV)> {
    Seq::new(a.len(), |i: int| (a[i].0@, a[i].1.view()))
}

fn asset_index(assets: &Vec<(String, Json)>, name: &String) -> (r: Option<usize>)
    ensures
        match crate::reload::member(assets_view(assets@), name@, 0) {
            Some(v) => r matches Some(i) && i < assets@.len() && assets@[i as int].1.view() == v,
            None => r is None,
        },
{
    let ghost av = assets_view(assets@);
    let mut i: usize = 0;
    while i < assets.len()
        invariant
            i <= assets@.len(),
            av == assets_view(assets@),
            crate::reload::member(av, name@, 0) == crate::reload::member(av, name@, i as int),
        decreases assets.len() - i,
    {
        if crate::text::str_equal(assets[i].0.as_str(), name.as_str()) {
            return Some(i);
        }
        i = i + 1;
    }
    None
}

fn asset_ref_exec(m: &Vec<(String, Json)>, assets: &Vec<(String, Json)>) -> (r: Result<Json, String>)
    ensures
        match asset_ref_spec(members_view(m@), assets_view(assets@)) {
            Ok(x) => r matches Ok(y) && y.view() == x,
            Err(e) => r matches Err(f) && f@ == e,
        },
{
    let ghost mv = members_view(m@);
    proof {
        lemma_members_view(m@);
    }
    let name = match crate::score::field_of(m, "$asset") {
        Some(i) => match &m[i].1 {
            Json::String(s) => s,
            _ => {
                return Err(string_of(&chars_of("$asset must be a string")));
            },
        },
        None => {
            return Err(string_of(&chars_of("$asset must be a string")));
        },
    };
    let mut k: usize = 0;
    while k < m.len()
        invariant
            k <= m@.len(),
            mv == members_view(m@),
            mv.len() == m@.len(),
            forall|j: int| 0 <= j < m@.len() ==> #[trigger] mv[j] == (m@[j].0@, m@[j].1.view()),
            forall|j: int| 0 <= j < k ==> (#[trigger] mv[j]).0 == "$asset"@ || mv[j].0 == "path"@,
            get(mv, "$asset"@) == Some(JsonV::String(name@)),
        decreases m.len() - k,
    {
        if !crate::text::str_equal(m[k].0.as_str(), "$asset") && !crate::text::str_equal(m[k].0.as_str(), "path") {
            proof {
                assert(!only_ref_keys(mv)) by {
                    assert(mv[k as int].0 != "$asset"@ && mv[k as int].0 != "path"@);
                }
            }
            return Err(string_of(&chars_of("asset reference objects may only contain '$asset' and 'path'")));
        }
        k = k + 1;
    }
    let a = match asset_index(assets, name) {
        Some(i) => &assets[i].1,
        None => {
            let mut t = chars_of("Unknown asset reference '");
            push_str(&mut t, name.as_str());
            push_str(&mut t, "'");
            return Err(string_of(&t));
        },
    };
    match crate::score::field_of(m, "path") {
        None => Ok(json_clone(a)),
        Some(i) => match &m[i].1 {
            Json::String(p) => {
                let pc = chars_of(p.as_str());
                if pc.len() > 0 && pc[0] != '/' {
                    let mut t = chars_of("asset reference path '");
                    push_str(&mut t, p.as_str());
                    push_str(&mut t, "' must be a JSON Pointer starting with '/'");
                    return Err(string_of(&t));
                }
                match json_pointer(a, p.as_str()) {
                    Some(x) => Ok(x),
                    None => {
                        let mut t = chars_of("Asset reference '");
                        push_str(&mut t, name.as_str());
                        push_str(&mut t, "' does not contain JSON Pointer '");
                        push_str(&mut t, p.as_str());
                        push_str(&mut t, "'");
                        Err(string_of(&t))
                    },
                }
            },
            _ => Err(string_of(&chars_of("asset reference path must be a string"))),
        },
    }
}

/// Resolves the asset references in a config (see [`resolve_spec`]).
pub fn resolve_asset_refs(value: &Json, assets: &Vec<(String, Json)>) -> (r: Result<Json, String>)
    ensures
        match resolve_spec(value.view(), assets_view(assets@)) {
            Ok(x) => r matches Ok(y) && y.view() == x,
            Err(e) => r matches Err(f) && f@ == e,
        },
    decreases value,
{
    let ghost av = assets_view(assets@);
    match value {
        Json::Array(items) => {
            let ghost iv = items_view(items@);
            proof {
                lemma_items_view(items@);
            }
            let mut out: Vec<Json> = Vec::new();
            let mut i: usize = 0;
            while i < items.len()
                invariant
                    i <= items@.len(),
                    *value == Json::Array(*items),
                    iv == items_view(items@),
                    iv.len() == items@.len(),
                    forall|j: int| 0 <= j < items@.len() ==> #[trigger] iv[j] == items@[j].view(),
                    av == assets_view(assets@),
                    resolve_items(iv, av, i as int) == Ok::<Seq<JsonV>, Seq<char>>(items_view(out@)),
                    out@.len() == i,
                decreases items.len() - i,
            {
                proof {
                    assert(decreases_to!(*value => (*value)->Array_0));
                    assert((*value)->Array_0 == *items);
                    assert(decreases_to!(*items => items@));
                    assert(decreases_to!(items@ => items@[i as int]));
                }
                let x = resolve_asset_refs(&items[i], assets);
                match x {
                    Ok(y) => {
                        let ghost before = out@;
                        out.push(y);
                        proof {
                            lemma_items_view(out@);
                            lemma_items_view(before);
                            assert(items_view(out@) =~= items_view(before).push(y.view()));
                        }
                    },
                    Err(e) => {
                        proof {
                            lemma_resolve_items_stays(iv, av, i + 1, iv.len() as int);
                        }
                        return Err(e);
                    },
                }
                i = i + 1;
            }
            proof {
                lemma_items_view(out@);
            }
            Ok(Json::Array(out))
        },
        Json::Object(m) => {
            let ghost mv = members_view(m@);
            proof {
                lemma_members_view(m@);
            }
            if crate::score::field_of(m, "$asset").is_some() {
                return asset_ref_exec(m, assets);
            }
            let mut out: Vec<(String, Json)> = Vec::new();
            let mut i: usize = 0;
            while i < m.len()
                invariant
                    i <= m@.len(),
                    *value == Json::Object(*m),
                    mv == members_view(m@),
                    mv.len() == m@.len(),
                    forall|j: int| 0 <= j < m@.len() ==> #[trigger] mv[j] == (m@[j].0@, m@[j].1.view()),
                    av == assets_view(assets@),
                    resolve_members(mv, av, i as int) == Ok::<Seq<(Seq<char>, JsonV)>, Seq<char>>(members_view(out@)),
                    out@.len() == i,
                    get(mv, "$asset"@) is None,
                decreases m.len() - i,
            {
                proof {
                    assert(decreases_to!(*value => (*value)->Object_0));
                    assert((*value)->Object_0 == *m);
                    assert(decreases_to!(*m => m@));
                    assert(decreases_to!(m@ => m@[i as int]));
                    assert(decreases_to!(m@[i as int] => m@[i as int].1));
                }
                let x = resolve_asset_refs(&m[i].1, assets);
                match x {
                    Ok(y) => {
                        let ghost before = out@;
                        out.push((copy_string(&m[i].0), y));
                        proof {
                            lemma_members_view(out@);
                            lemma_members_view(before);
                            assert(members_view(out@) =~= members_view(before).push((mv[i as int].0, y.view())));
                        }
                    },
                    Err(e) => {
                        proof {
                            lemma_resolve_members_stays(mv, av, i + 1, mv.len() as int);
                        }
                        return Err(e);
                    },
                }
                i = i + 1;
            }
            Ok(Json::Object(out))
        },
        Json::Null => Ok(Json::Null),
        Json::Bool(b) => Ok(Json::Bool(*b)),
        Json::Number(n) => Ok(Json::Number(*n)),
        Json::String(s) => Ok(Json::String(copy_string(s))),
    }
}

proof fn lemma_resolve_items_stays(items: Seq<JsonV>, assets: Seq<(Seq<char>, JsonV)>, k: int, n: int)
    requires
        0 < k <= n <= items.len(),
        resolve_items(items, assets, k) is Err,
    ensures
        resolve_items(items, assets, n) == resolve_items(items, assets, k),
    decreases n - k,
{
    if k < n {
        lemma_resolve_items_stays(items, assets, k, n - 1);
    }
}

proof fn lemma_resolve_members_stays(m: Seq<(Seq<char>, JsonV)>, assets: Seq<(Seq<char>, JsonV)>, k: int, n: int)
    requires
        0 < k <= n <= m.len(),
        resolve_members(m, assets, k) is Err,
    ensures
        resolve_members(m, assets, n) == resolve_members(m, assets, k),
    decreases n - k,
{
    if k < n {
        lemma_resolve_members_stays(m, assets, k, n - 1);
    }
}

} // verus!

verus! {

// ---------------------------------------------------------------------------
// Loading assets into an invention

/// Whether a JSON asset declares itself a `fugue.score.v1` document by a
/// top-level `schema` field.
pub open spec fn declares_score_schema_spec(v: JsonV) -> bool {
    match v {
        JsonV::Object(m) => get(m, "schema"@) == Some(JsonV::String(SCORE_SCHEMA_V1@)),
        _ => false,
    }
}

/// Returns true when a parsed JSON asset declares itself a score via a
/// top-level `schema` field, opting into load-time validation.
pub fn declares_score_schema(value: &Json) -> (r: bool)
    ensures
        r == declares_score_schema_spec(value.view()),
{
    match value {
        Json::Object(m) => match crate::score::field_of(m, "schema") {
            Some(i) => match &m[i].1 {
                Json::String(s) => crate::text::str_equal(s.as_str(), SCORE_SCHEMA_V1),
                _ => false,
            },
            None => false,
        },
        _ => false,
    }
}

/// The error for a loaded asset that declares itself a score but is not
/// a valid one.
pub open spec fn invalid_score_asset_msg(name: Seq<char>, resolved: Seq<char>, err: Seq<char>) -> Seq<char> {
    "Invalid score asset '"@ + name + "' from '"@ + resolved + "': "@ + err
}

/// Checks a loaded asset: one that declares itself a score must validate.
pub fn check_asset(name: &String, resolved: &String, value: &Json) -> (r: Result<(), String>)
    ensures
        (declares_score_schema_spec(value.view()) && score_problem(value.view()) is Some)
            ==> (r matches Err(e) && e@ == invalid_score_asset_msg(name@, resolved@, score_problem(value.view())->Some_0)),
        !(declares_score_schema_spec(value.view()) && score_problem(value.view()) is Some) ==> r is Ok,
{
    if declares_score_schema(value) {
        match validate_score(value) {
            Ok(()) => {},
            Err(e) => {
                let mut t = chars_of("Invalid score asset '");
                push_str(&mut t, name.as_str());
                push_str(&mut t, "' from '");
                push_str(&mut t, resolved.as_str());
                push_str(&mut t, "': ");
                push_str(&mut t, e.as_str());
                return Err(string_of(&t));
            },
        }
    }
    Ok(())
}

/// The document's modules with their configs' asset references resolved,
/// the first error in module order winning.
pub open spec fn modules_resolved(specs: Seq<ModuleSpecV>, assets: Seq<(Seq<char>, JsonV)>, k: int) -> Result<Seq<ModuleSpecV>, Seq<char>>
    decreases k,
{
    if k <= 0 || k > specs.len() {
        Ok(Seq::empty())
    } else {
        match modules_resolved(specs, assets, k - 1) {
            Err(e) => Err(e),
            Ok(xs) => match resolve_spec(specs[k - 1].config, assets) {
                Ok(c) => Ok(xs.push(ModuleSpecV { config: c, ..specs[k - 1] })),
                Err(e) => Err(e),
            },
        }
    }
}

proof fn lemma_modules_resolved_stays(specs: Seq<ModuleSpecV>, assets: Seq<(Seq<char>, JsonV)>, k: int, n: int)
    requires
        0 < k <= n <= specs.len(),
        modules_resolved(specs, assets, k) is Err,
    ensures
        modules_resolved(specs, assets, n) == modules_resolved(specs, assets, k),
    decreases n - k,
{
    if k < n {
        lemma_modules_resolved_stays(specs, assets, k, n - 1);
    }
}

/// Resolves the asset references in every module config of the
/// invention; everything else is kept.
#[verifier::loop_isolation(false)]
pub fn resolve_module_assets(document: Invention, assets: &Vec<(String, Json)>) -> (r: Result<Invention, String>)
    ensures
        ({
            let specs = document.view().modules;
            match modules_resolved(specs, assets_view(assets@), specs.len() as int) {
                Ok(ms) => r matches Ok(x) && x.view() == InventionV { modules: ms, ..document.view() },
                Err(e) => r matches Err(f) && f@ == e,
            }
        }),
{
    let ghost specs = document.view().modules;
    let ghost av = assets_view(assets@);
    let mut invention = document;
    let ghost original = invention;
    let mut modules: Vec<ModuleSpec> = Vec::new();
    let mut i: usize = 0;
    proof {
        assert(Seq::new(modules@.len(), |j: int| modules@[j].view()) =~= Seq::<ModuleSpecV>::empty());
    }
    while i < invention.modules.len()
        invariant
            i <= invention.modules@.len(),
            invention == original,
            specs == original.view().modules,
            specs.len() == invention.modules@.len(),
            av == assets_view(assets@),
            modules@.len() == i,
            modules_resolved(specs, av, i as int) == Ok::<Seq<ModuleSpecV>, Seq<char>>(Seq::new(modules@.len(), |j: int| modules@[j].view())),
        decreases invention.modules.len() - i,
    {
        let m = &invention.modules[i];
        proof {
            assert(specs[i as int] == m.view());
        }
        match resolve_asset_refs(&m.config, assets) {
            Ok(c) => {
                let ghost before = modules@;
                modules.push(ModuleSpec { id: copy_string(&m.id), module_type: copy_string(&m.module_type), config: c });
                proof {
                    assert(Seq::new(modules@.len(), |j: int| modules@[j].view())
                        =~= Seq::new(before.len(), |j: int| before[j].view()).push(ModuleSpecV { config: c.view(), ..specs[i as int] }));
                }
            },
            Err(e) => {
                proof {
                    assert(resolve_spec(specs[i as int].config, av) == Err::<JsonV, Seq<char>>(e@));
                    assert(modules_resolved(specs, av, i + 1) == Err::<Seq<ModuleSpecV>, Seq<char>>(e@));
                    lemma_modules_resolved_stays(specs, av, i + 1, specs.len() as int);
                }
                return Err(e);
            },
        }
        i = i + 1;
    }
    invention.modules = modules;
    proof {
        assert(invention.view().modules =~= Seq::new(modules@.len(), |j: int| modules@[j].view()));
        assert(invention.view() =~= InventionV { modules: Seq::new(modules@.len(), |j: int| modules@[j].view()), ..original.view() });
    }
    Ok(invention)
}

} // verus!
