//! The one content format this crate understands at the JSON level: a tag
//! document of the shape `{ "replace"?: bool, "values": [string, ...] }`.
//!
//! Both the decoder and the pretty-printing encoder are defined here as
//! verified functions against spec-level definitions of the same grammar, so
//! that the merge engine's contract can speak exactly about what happens to a
//! pair of tag payloads.
//!
//! The accepted grammar is deliberately narrower than full JSON: string
//! values may hold printable ASCII only, with the escapes `\"`, `\\` and
//! `\/`; the object may hold exactly the two known keys, each once. A
//! payload outside this grammar — control-character escapes such as `\n`,
//! `\uXXXX` escapes, non-ASCII text, or extra keys — is treated as a
//! malformed document and falls to the empty-values fallback, so a tag merge
//! keeps nothing of such a side. Every document this crate itself encodes
//! lies inside the grammar, and on it the codec is a proved round trip.

use crate::strutil::push_char;
use crate::strutil::str_eq;
use vstd::prelude::*;

verus! {

/// JSON document carried by a `Tag` leaf: an optional `replace` flag and a
/// list of string values.
#[derive(Debug, Clone, PartialEq, Eq)]
pub struct Tag {
    pub replace: Option<bool>,
    pub values: Vec<String>,
}

/// Mathematical model of a tag document.
#[verifier::ext_equal]
pub struct TagView {
    pub replace: Option<bool>,
    pub values: Seq<Seq<char>>,
}

impl View for Tag {
    type V = TagView;

    open spec fn view(&self) -> TagView {
        TagView { replace: self.replace, values: self.values.deep_view() }
    }
}

impl Default for Tag {
    /// The document a missing or malformed payload is treated as.
    fn default() -> (r: Tag)
        ensures
            r@ == TagView::empty(),
    {
        Tag { replace: None, values: Vec::new() }
    }
}

impl TagView {
    pub open spec fn empty() -> TagView {
        TagView { replace: None, values: Seq::empty() }
    }

    /// Every character of every value lies in the printable ASCII range.
    pub open spec fn wf(self) -> bool {
        forall|i: int, j: int|
            0 <= i < self.values.len() && 0 <= j < self.values[i].len() ==> is_tag_char(
                #[trigger] self.values[i][j],
            )
    }
}

/// Characters a tag value may contain: printable ASCII.
pub open spec fn is_tag_char(c: char) -> bool {
    ' ' <= c <= '~'
}

/// JSON insignificant whitespace.
pub open spec fn is_ws(b: u8) -> bool {
    b == 0x20 || b == 0x09 || b == 0x0a || b == 0x0d
}

/// First position at or after `i` holding a non-whitespace byte (or the end).
pub open spec fn spec_skip_ws(s: Seq<u8>, i: int) -> int
    decreases s.len() - i,
{
    if 0 <= i < s.len() && is_ws(s[i]) {
        spec_skip_ws(s, i + 1)
    } else {
        i
    }
}

pub proof fn lemma_skip_ws_bounds(s: Seq<u8>, i: int)
    requires
        0 <= i <= s.len(),
    ensures
        i <= spec_skip_ws(s, i) <= s.len(),
        spec_skip_ws(s, i) < s.len() ==> !is_ws(s[spec_skip_ws(s, i)]),
    decreases s.len() - i,
{
    if i < s.len() && is_ws(s[i]) {
        lemma_skip_ws_bounds(s, i + 1);
    }
}

/// The character an escape sequence `\x` stands for, if the escape is
/// recognized.
pub open spec fn spec_unescape(b: u8) -> Option<char> {
    if b == 0x22 {
        Some('"')
    } else if b == 0x5c {
        Some('\\')
    } else if b == 0x2f {
        Some('/')
    } else {
        None
    }
}

/// Body of a JSON string, starting just after the opening quote; yields the
/// decoded characters and the position just after the closing quote.
pub open spec fn spec_parse_str_body(s: Seq<u8>, i: int) -> Option<(Seq<char>, int)>
    decreases s.len() - i,
{
    if i < 0 || i >= s.len() {
        None
    } else if s[i] == 0x22 {
        Some((Seq::empty(), i + 1))
    } else if s[i] == 0x5c {
        if i + 1 < s.len() && spec_unescape(s[i + 1]) is Some {
            match spec_parse_str_body(s, i + 2) {
                Some((cs, j)) => Some((seq![spec_unescape(s[i + 1]).unwrap()] + cs, j)),
                None => None,
            }
        } else {
            None
        }
    } else if 0x20 <= s[i] <= 0x7e {
        match spec_parse_str_body(s, i + 1) {
            Some((cs, j)) => Some((seq![s[i] as char] + cs, j)),
            None => None,
        }
    } else {
        None
    }
}

pub proof fn lemma_parse_str_body_bounds(s: Seq<u8>, i: int)
    requires
        0 <= i <= s.len(),
    ensures
        spec_parse_str_body(s, i) matches Some((cs, j)) ==> i < j <= s.len(),
        spec_parse_str_body(s, i) matches Some((cs, j)) ==> forall|k: int|
            0 <= k < cs.len() ==> is_tag_char(#[trigger] cs[k]),
    decreases s.len() - i,
{
    if 0 <= i < s.len() {
        if s[i] == 0x5c {
            if i + 2 <= s.len() {
                lemma_parse_str_body_bounds(s, i + 2);
            }
        } else if 0x20 <= s[i] <= 0x7e && s[i] != 0x22 {
            lemma_parse_str_body_bounds(s, i + 1);
        }
    }
}

/// A complete JSON string starting at `i` (which must hold the opening
/// quote).
pub open spec fn spec_parse_jstring(s: Seq<u8>, i: int) -> Option<(Seq<char>, int)> {
    if 0 <= i < s.len() && s[i] == 0x22 {
        spec_parse_str_body(s, i + 1)
    } else {
        None
    }
}

pub proof fn lemma_parse_jstring_bounds(s: Seq<u8>, i: int)
    requires
        0 <= i <= s.len(),
    ensures
        spec_parse_jstring(s, i) matches Some((cs, j)) ==> i + 2 <= j <= s.len(),
        spec_parse_jstring(s, i) matches Some((cs, j)) ==> forall|k: int|
            0 <= k < cs.len() ==> is_tag_char(#[trigger] cs[k]),
{
    if 0 <= i < s.len() && s[i] == 0x22 {
        lemma_parse_str_body_bounds(s, i + 1);
    }
}

/// Items of a non-empty string list, starting at the first opening quote;
/// yields the decoded values and the position just after the closing `]`.
pub open spec fn spec_parse_list_items(s: Seq<u8>, i: int) -> Option<(Seq<Seq<char>>, int)>
    decreases s.len() - i,
    when 0 <= i <= s.len()
    via spec_parse_list_items_decreases
{
    match spec_parse_jstring(s, i) {
        None => None,
        Some((v, j)) => {
            let k = spec_skip_ws(s, j);
            if k < s.len() && s[k] == 0x2c {
                match spec_parse_list_items(s, spec_skip_ws(s, k + 1)) {
                    Some((vs, m)) => Some((seq![v] + vs, m)),
                    None => None,
                }
            } else if k < s.len() && s[k] == 0x5d {
                Some((seq![v], k + 1))
            } else {
                None
            }
        },
    }
}

#[via_fn]
proof fn spec_parse_list_items_decreases(s: Seq<u8>, i: int) {
    lemma_parse_jstring_bounds(s, i);
    match spec_parse_jstring(s, i) {
        None => {},
        Some((v, j)) => {
            lemma_skip_ws_bounds(s, j);
            let k = spec_skip_ws(s, j);
            if k < s.len() && s[k] == 0x2c {
                lemma_skip_ws_bounds(s, k + 1);
            }
        },
    }
}

pub proof fn lemma_parse_list_items_bounds(s: Seq<u8>, i: int)
    requires
        0 <= i <= s.len(),
    ensures
        spec_parse_list_items(s, i) matches Some((vs, m)) ==> i < m <= s.len(),
        spec_parse_list_items(s, i) matches Some((vs, m)) ==> forall|a: int, b: int|
            0 <= a < vs.len() && 0 <= b < vs[a].len() ==> is_tag_char(#[trigger] vs[a][b]),
    decreases s.len() - i,
{
    lemma_parse_jstring_bounds(s, i);
    match spec_parse_jstring(s, i) {
        None => {},
        Some((v, j)) => {
            lemma_skip_ws_bounds(s, j);
            let k = spec_skip_ws(s, j);
            if k < s.len() && s[k] == 0x2c {
                lemma_skip_ws_bounds(s, k + 1);
                lemma_parse_list_items_bounds(s, spec_skip_ws(s, k + 1));
            }
        },
    }
}

/// A string list starting at `i` (which must hold `[`); yields the values and
/// the position just after the closing `]`.
pub open spec fn spec_parse_list(s: Seq<u8>, i: int) -> Option<(Seq<Seq<char>>, int)> {
    if 0 <= i < s.len() && s[i] == 0x5b {
        let j = spec_skip_ws(s, i + 1);
        if j < s.len() && s[j] == 0x5d {
            Some((Seq::empty(), j + 1))
        } else {
            spec_parse_list_items(s, j)
        }
    } else {
        None
    }
}

/// A JSON boolean literal starting at `i`.
pub open spec fn spec_parse_bool(s: Seq<u8>, i: int) -> Option<(bool, int)> {
    if 0 <= i && i + 4 <= s.len() && s[i] == 0x74 && s[i + 1] == 0x72 && s[i + 2] == 0x75 && s[i
        + 3] == 0x65 {
        Some((true, i + 4))
    } else if 0 <= i && i + 5 <= s.len() && s[i] == 0x66 && s[i + 1] == 0x61 && s[i + 2] == 0x6c
        && s[i + 3] == 0x73 && s[i + 4] == 0x65 {
        Some((false, i + 5))
    } else {
        None
    }
}

/// `: <value>` after a key, where the value is a boolean; yields the flag and
/// the position after it.
pub open spec fn spec_parse_colon_bool(s: Seq<u8>, i: int) -> Option<(bool, int)> {
    let j = spec_skip_ws(s, i);
    if j < s.len() && s[j] == 0x3a {
        spec_parse_bool(s, spec_skip_ws(s, j + 1))
    } else {
        None
    }
}

/// `: <value>` after a key, where the value is a string list.
pub open spec fn spec_parse_colon_list(s: Seq<u8>, i: int) -> Option<(Seq<Seq<char>>, int)> {
    let j = spec_skip_ws(s, i);
    if j < s.len() && s[j] == 0x3a {
        spec_parse_list(s, spec_skip_ws(s, j + 1))
    } else {
        None
    }
}

/// The document members after the first key of the object has been read.
/// `i` points just after the first key's closing quote.
pub open spec fn spec_parse_members(s: Seq<u8>, key1: Seq<char>, i: int) -> Option<(
    TagView,
    int,
)> {
    if key1 == "replace"@ {
        match spec_parse_colon_bool(s, i) {
            None => None,
            Some((flag, j)) => {
                let k = spec_skip_ws(s, j);
                if k < s.len() && s[k] == 0x2c {
                    match spec_parse_jstring(s, spec_skip_ws(s, k + 1)) {
                        None => None,
                        Some((key2, m)) => if key2 == "values"@ {
                            match spec_parse_colon_list(s, m) {
                                None => None,
                                Some((vs, p)) => Some(
                                    (TagView { replace: Some(flag), values: vs }, p),
                                ),
                            }
                        } else {
                            None
                        },
                    }
                } else {
                    None
                }
            },
        }
    } else if key1 == "values"@ {
        match spec_parse_colon_list(s, i) {
            None => None,
            Some((vs, j)) => {
                let k = spec_skip_ws(s, j);
                if k < s.len() && s[k] == 0x2c {
                    match spec_parse_jstring(s, spec_skip_ws(s, k + 1)) {
                        None => None,
                        Some((key2, m)) => if key2 == "replace"@ {
                            match spec_parse_colon_bool(s, m) {
                                None => None,
                                Some((flag, p)) => Some(
                                    (TagView { replace: Some(flag), values: vs }, p),
                                ),
                            }
                        } else {
                            None
                        },
                    }
                } else {
                    Some((TagView { replace: None, values: vs }, j))
                }
            },
        }
    } else {
        None
    }
}

/// A whole tag document: an object holding a required `values` list and an
/// optional `replace` flag, with nothing but whitespace around it.
pub open spec fn spec_parse_tag(s: Seq<u8>) -> Option<TagView> {
    let i = spec_skip_ws(s, 0);
    if i < s.len() && s[i] == 0x7b {
        match spec_parse_jstring(s, spec_skip_ws(s, i + 1)) {
            None => None,
            Some((key1, j)) => match spec_parse_members(s, key1, j) {
                None => None,
                Some((t, p)) => {
                    let q = spec_skip_ws(s, p);
                    if q < s.len() && s[q] == 0x7d && spec_skip_ws(s, q + 1) == s.len() {
                        Some(t)
                    } else {
                        None
                    }
                },
            },
        }
    } else {
        None
    }
}

/// The document a payload decodes to, with the malformed-payload fallback:
/// a payload that is not a well-formed tag document is treated as one with no
/// values rather than as an error.
pub open spec fn spec_decode_lenient(s: Seq<u8>) -> TagView {
    match spec_parse_tag(s) {
        Some(t) => t,
        None => TagView::empty(),
    }
}

/// Every decoded document is well formed: its values hold printable ASCII
/// characters only.
pub proof fn lemma_parse_tag_wf(s: Seq<u8>)
    ensures
        spec_parse_tag(s) matches Some(t) ==> t.wf(),
        spec_decode_lenient(s).wf(),
{
    let i = spec_skip_ws(s, 0);
    lemma_skip_ws_bounds(s, 0);
    if i < s.len() && s[i] == 0x7b {
        lemma_skip_ws_bounds(s, i + 1);
        let j0 = spec_skip_ws(s, i + 1);
        lemma_parse_jstring_bounds(s, j0);
        match spec_parse_jstring(s, j0) {
            None => {},
            Some((key1, j)) => {
                lemma_parse_members_wf(s, key1, j);
            },
        }
    }
}

proof fn lemma_parse_colon_list_wf(s: Seq<u8>, i: int)
    requires
        0 <= i <= s.len(),
    ensures
        spec_parse_colon_list(s, i) matches Some((vs, j)) ==> {
            &&& i <= j <= s.len()
            &&& forall|a: int, b: int|
                0 <= a < vs.len() && 0 <= b < vs[a].len() ==> is_tag_char(#[trigger] vs[a][b])
        },
{
    lemma_skip_ws_bounds(s, i);
    let j = spec_skip_ws(s, i);
    if j < s.len() && s[j] == 0x3a {
        lemma_skip_ws_bounds(s, j + 1);
        let k = spec_skip_ws(s, j + 1);
        if k < s.len() && s[k] == 0x5b {
            lemma_skip_ws_bounds(s, k + 1);
            let m = spec_skip_ws(s, k + 1);
            if !(m < s.len() && s[m] == 0x5d) {
                lemma_parse_list_items_bounds(s, m);
            }
        }
    }
}

proof fn lemma_parse_colon_bool_bounds(s: Seq<u8>, i: int)
    requires
        0 <= i <= s.len(),
    ensures
        spec_parse_colon_bool(s, i) matches Some((flag, j)) ==> i <= j <= s.len(),
{
    lemma_skip_ws_bounds(s, i);
    let j = spec_skip_ws(s, i);
    if j < s.len() && s[j] == 0x3a {
        lemma_skip_ws_bounds(s, j + 1);
    }
}

fn skip_ws_x(s: &[u8], i: usize) -> (r: usize)
    requires
        i <= s@.len(),
    ensures
        r as int == spec_skip_ws(s@, i as int),
        i <= r <= s@.len(),
{
    let mut j = i;
    while j < s.len() && (s[j] == 0x20 || s[j] == 0x09 || s[j] == 0x0a || s[j] == 0x0d)
        invariant
            i <= j <= s@.len(),
            spec_skip_ws(s@, i as int) == spec_skip_ws(s@, j as int),
        decreases s@.len() - j,
    {
        j += 1;
    }
    j
}

/// Decoder of a JSON string at position `i`; returns the decoded value and
/// the position just after the closing quote.
fn parse_jstring_x(s: &[u8], i: usize) -> (r: Option<(String, usize)>)
    requires
        i <= s@.len(),
    ensures
        match r {
            Some(p) => {
                &&& spec_parse_jstring(s@, i as int) == Some((p.0@, p.1 as int))
                &&& i < p.1 <= s@.len()
            },
            None => spec_parse_jstring(s@, i as int) is None,
        },
{
    if i >= s.len() || s[i] != 0x22 {
        return None;
    }
    let mut j = i + 1;
    let mut acc = String::new();
    loop
        invariant
            i < s@.len(),
            s@[i as int] == 0x22,
            i + 1 <= j <= s@.len(),
            spec_parse_str_body(s@, i + 1) == (match spec_parse_str_body(s@, j as int) {
                Some((cs, m)) => Some((acc@ + cs, m)),
                None => None,
            }),
        decreases s@.len() - j,
    {
        if j >= s.len() {
            return None;
        }
        let b = s[j];
        if b == 0x22 {
            proof {
                assert(spec_parse_str_body(s@, j as int) == Some(
                    (Seq::<char>::empty(), j + 1 as int),
                ));
                assert(acc@ + Seq::<char>::empty() =~= acc@);
            }
            return Some((acc, j + 1));
        } else if b == 0x5c {
            if j + 1 >= s.len() {
                return None;
            }
            let e = s[j + 1];
            let c: char = if e == 0x22 {
                '"'
            } else if e == 0x5c {
                '\\'
            } else if e == 0x2f {
                '/'
            } else {
                return None;
            };
            proof {
                assert(spec_unescape(s@[j as int + 1]) == Some(c));
                match spec_parse_str_body(s@, j + 2 as int) {
                    Some((cs, m)) => {
                        assert(acc@ + (seq![c] + cs) =~= acc@.push(c) + cs);
                    },
                    None => {},
                }
            }
            push_char(&mut acc, c);
            j += 2;
        } else if 0x20 <= b && b <= 0x7e {
            let c = b as char;
            proof {
                match spec_parse_str_body(s@, j + 1 as int) {
                    Some((cs, m)) => {
                        assert(acc@ + (seq![c] + cs) =~= acc@.push(c) + cs);
                    },
                    None => {},
                }
            }
            push_char(&mut acc, c);
            j += 1;
        } else {
            return None;
        }
    }
}

/// Decoder of a string list at position `i` (which must hold `[`).
fn parse_list_x(s: &[u8], i: usize) -> (r: Option<(Vec<String>, usize)>)
    requires
        i <= s@.len(),
    ensures
        match r {
            Some(p) => {
                &&& spec_parse_list(s@, i as int) == Some((p.0.deep_view(), p.1 as int))
                &&& p.1 <= s@.len()
            },
            None => spec_parse_list(s@, i as int) is None,
        },
{
    if i >= s.len() || s[i] != 0x5b {
        return None;
    }
    let j0 = skip_ws_x(s, i + 1);
    if j0 < s.len() && s[j0] == 0x5d {
        let empty: Vec<String> = Vec::new();
        proof {
            assert(empty.deep_view() =~= Seq::<Seq<char>>::empty());
        }
        return Some((empty, j0 + 1));
    }
    let mut acc: Vec<String> = Vec::new();
    let mut pos = j0;
    loop
        invariant
            j0 <= s@.len(),
            pos <= s@.len(),
            spec_parse_list(s@, i as int) == (match spec_parse_list_items(s@, pos as int) {
                Some((vs, m)) => Some((acc.deep_view() + vs, m)),
                None => None,
            }),
        decreases s@.len() - pos,
    {
        let item = parse_jstring_x(s, pos);
        match item {
            None => {
                return None;
            },
            Some(p) => {
                let v = p.0;
                let ghost vv = v@;
                let k = skip_ws_x(s, p.1);
                proof {
                    lemma_skip_ws_bounds(s@, p.1 as int);
                }
                if k < s.len() && s[k] == 0x2c {
                    let next = skip_ws_x(s, k + 1);
                    let ghost old_dv = acc.deep_view();
                    acc.push(v);
                    proof {
                        assert(acc.deep_view() =~= old_dv.push(vv));
                        match spec_parse_list_items(s@, next as int) {
                            Some((vs, m)) => {
                                assert(spec_parse_list_items(s@, pos as int) == Some(
                                    (seq![vv] + vs, m),
                                ));
                                assert(old_dv + (seq![vv] + vs) =~= old_dv.push(vv) + vs);
                            },
                            None => {},
                        }
                    }
                    pos = next;
                } else if k < s.len() && s[k] == 0x5d {
                    let ghost old_dv = acc.deep_view();
                    acc.push(v);
                    proof {
                        assert(acc.deep_view() =~= old_dv.push(vv));
                        assert(spec_parse_list_items(s@, pos as int) == Some(
                            (seq![vv], k + 1 as int),
                        ));
                        assert(old_dv + seq![vv] =~= old_dv.push(vv));
                    }
                    return Some((acc, k + 1));
                } else {
                    return None;
                }
            },
        }
    }
}

/// Decoder of a boolean literal at position `i`.
fn parse_bool_x(s: &[u8], i: usize) -> (r: Option<(bool, usize)>)
    requires
        i <= s@.len(),
    ensures
        match r {
            Some(p) => spec_parse_bool(s@, i as int) == Some((p.0, p.1 as int)) && p.1 <= s@.len(),
            None => spec_parse_bool(s@, i as int) is None,
        },
{
    if s.len() - i >= 4 && s[i] == 0x74 && s[i + 1] == 0x72 && s[i + 2] == 0x75 && s[i + 3] == 0x65 {
        Some((true, i + 4))
    } else if s.len() - i >= 5 && s[i] == 0x66 && s[i + 1] == 0x61 && s[i + 2] == 0x6c && s[i + 3]
        == 0x73 && s[i + 4] == 0x65 {
        Some((false, i + 5))
    } else {
        None
    }
}

fn parse_colon_bool_x(s: &[u8], i: usize) -> (r: Option<(bool, usize)>)
    requires
        i <= s@.len(),
    ensures
        match r {
            Some(p) => {
                &&& spec_parse_colon_bool(s@, i as int) == Some((p.0, p.1 as int))
                &&& p.1 <= s@.len()
            },
            None => spec_parse_colon_bool(s@, i as int) is None,
        },
{
    let j = skip_ws_x(s, i);
    if j < s.len() && s[j] == 0x3a {
        let k = skip_ws_x(s, j + 1);
        parse_bool_x(s, k)
    } else {
        None
    }
}

fn parse_colon_list_x(s: &[u8], i: usize) -> (r: Option<(Vec<String>, usize)>)
    requires
        i <= s@.len(),
    ensures
        match r {
            Some(p) => {
                &&& spec_parse_colon_list(s@, i as int) == Some((p.0.deep_view(), p.1 as int))
                &&& p.1 <= s@.len()
            },
            None => spec_parse_colon_list(s@, i as int) is None,
        },
{
    let j = skip_ws_x(s, i);
    if j < s.len() && s[j] == 0x3a {
        let k = skip_ws_x(s, j + 1);
        parse_list_x(s, k)
    } else {
        None
    }
}

impl Tag {
    /// Decode a byte payload as a tag document; `None` when the payload is
    /// not a well-formed document of the recognized shape. The shape is a
    /// strict subset of JSON: printable-ASCII strings with the `\"`, `\\`
    /// and `\/` escapes, and no keys besides `replace` and `values`.
    pub fn decode(data: &[u8]) -> (r: Option<Tag>)
        ensures
            match r {
                Some(t) => spec_parse_tag(data@) == Some(t@),
                None => spec_parse_tag(data@) is None,
            },
    {
        let i = skip_ws_x(data, 0);
        if !(i < data.len() && data[i] == 0x7b) {
            return None;
        }
        let j0 = skip_ws_x(data, i + 1);
        let key1 = match parse_jstring_x(data, j0) {
            None => {
                return None;
            },
            Some(p) => p,
        };
        let (doc, p) = match Self::decode_members(data, &key1.0, key1.1) {
            None => {
                return None;
            },
            Some(d) => d,
        };
        let q = skip_ws_x(data, p);
        if q < data.len() && data[q] == 0x7d && skip_ws_x(data, q + 1) == data.len() {
            Some(doc)
        } else {
            None
        }
    }

    /// The members of the document object, after its first key was read.
    fn decode_members(s: &[u8], key1: &String, i: usize) -> (r: Option<(Tag, usize)>)
        requires
            i <= s@.len(),
        ensures
            match r {
                Some(p) => {
                    &&& spec_parse_members(s@, key1@, i as int) == Some((p.0@, p.1 as int))
                    &&& p.1 <= s@.len()
                },
                None => spec_parse_members(s@, key1@, i as int) is None,
            },
    {
        if str_eq(key1.as_str(), "replace") {
            let (flag, j) = match parse_colon_bool_x(s, i) {
                None => {
                    return None;
                },
                Some(p) => p,
            };
            let k = skip_ws_x(s, j);
            if !(k < s.len() && s[k] == 0x2c) {
                return None;
            }
            let m0 = skip_ws_x(s, k + 1);
            let key2 = match parse_jstring_x(s, m0) {
                None => {
                    return None;
                },
                Some(p) => p,
            };
            if !str_eq(key2.0.as_str(), "values") {
                return None;
            }
            match parse_colon_list_x(s, key2.1) {
                None => None,
                Some(p) => Some((Tag { replace: Some(flag), values: p.0 }, p.1)),
            }
        } else if str_eq(key1.as_str(), "values") {
            let (vs, j) = match parse_colon_list_x(s, i) {
                None => {
                    return None;
                },
                Some(p) => p,
            };
            let k = skip_ws_x(s, j);
            if k < s.len() && s[k] == 0x2c {
                let m0 = skip_ws_x(s, k + 1);
                let key2 = match parse_jstring_x(s, m0) {
                    None => {
                        return None;
                    },
                    Some(p) => p,
                };
                if !str_eq(key2.0.as_str(), "replace") {
                    return None;
                }
                match parse_colon_bool_x(s, key2.1) {
                    None => None,
                    Some(p) => Some((Tag { replace: Some(p.0), values: vs }, p.1)),
                }
            } else {
                Some((Tag { replace: None, values: vs }, j))
            }
        } else {
            None
        }
    }
}

/// Encoding of one character inside a JSON string: quotes and backslashes
/// are escaped, every other printable character stands for itself.
pub open spec fn enc_char(c: char) -> Seq<u8> {
    if c == '"' {
        seq![0x5c, 0x22]
    } else if c == '\\' {
        seq![0x5c, 0x5c]
    } else {
        seq![(c as u32) as u8]
    }
}

pub open spec fn enc_str(v: Seq<char>) -> Seq<u8>
    decreases v.len(),
{
    if v.len() == 0 {
        Seq::empty()
    } else {
        enc_char(v[0]) + enc_str(v.drop_first())
    }
}

pub proof fn lemma_enc_str_concat(a: Seq<char>, b: Seq<char>)
    ensures
        enc_str(a + b) == enc_str(a) + enc_str(b),
    decreases a.len(),
{
    if a.len() == 0 {
        assert(a + b =~= b);
        assert(enc_str(a) + enc_str(b) =~= enc_str(b));
    } else {
        lemma_enc_str_concat(a.drop_first(), b);
        assert((a + b).drop_first() =~= a.drop_first() + b);
        assert(enc_char(a[0]) + (enc_str(a.drop_first()) + enc_str(b)) =~= (enc_char(a[0])
            + enc_str(a.drop_first())) + enc_str(b));
    }
}

/// A quoted JSON string.
pub open spec fn enc_quoted(v: Seq<char>) -> Seq<u8> {
    seq![0x22] + enc_str(v) + seq![0x22]
}

/// One list item on its own line, indented under `"values"`.
pub open spec fn enc_item(v: Seq<char>) -> Seq<u8> {
    seq![0x20, 0x20, 0x20, 0x20] + enc_quoted(v)
}

/// `,` + newline + the items of `vs`, one per line.
pub open spec fn enc_rest(vs: Seq<Seq<char>>) -> Seq<u8>
    decreases vs.len(),
{
    if vs.len() == 0 {
        Seq::empty()
    } else {
        seq![0x2c, 0x0a] + enc_item(vs[0]) + enc_rest(vs.drop_first())
    }
}

pub proof fn lemma_enc_rest_concat(a: Seq<Seq<char>>, b: Seq<Seq<char>>)
    ensures
        enc_rest(a + b) == enc_rest(a) + enc_rest(b),
    decreases a.len(),
{
    if a.len() == 0 {
        assert(a + b =~= b);
        assert(enc_rest(a) + enc_rest(b) =~= enc_rest(b));
    } else {
        lemma_enc_rest_concat(a.drop_first(), b);
        assert((a + b).drop_first() =~= a.drop_first() + b);
        assert((seq![0x2c, 0x0a] + enc_item(a[0])) + (enc_rest(a.drop_first()) + enc_rest(b)) =~= (
        seq![0x2c, 0x0a] + enc_item(a[0]) + enc_rest(a.drop_first())) + enc_rest(b));
        assert(enc_rest(a + b) =~= enc_rest(a) + enc_rest(b));
    }
}

/// All items of a non-empty list, separated by `,` and newlines.
pub open spec fn enc_items(vs: Seq<Seq<char>>) -> Seq<u8> {
    if vs.len() == 0 {
        Seq::empty()
    } else {
        enc_item(vs[0]) + enc_rest(vs.drop_first())
    }
}

/// The bytes `"replace"` between quotes, with its leading indentation and
/// trailing `: `.
pub open spec fn enc_replace_member(flag: bool) -> Seq<u8> {
    seq![0x20, 0x20, 0x22, 0x72, 0x65, 0x70, 0x6c, 0x61, 0x63, 0x65, 0x22, 0x3a, 0x20] + (if flag {
        seq![0x74, 0x72, 0x75, 0x65]
    } else {
        seq![0x66, 0x61, 0x6c, 0x73, 0x65]
    }) + seq![0x2c, 0x0a]
}

/// The bytes `  "values": ` that precede the value list.
pub open spec fn enc_values_head() -> Seq<u8> {
    seq![0x20, 0x20, 0x22, 0x76, 0x61, 0x6c, 0x75, 0x65, 0x73, 0x22, 0x3a, 0x20]
}

/// The bracketed value list itself: `[]` when empty, else one item per line.
pub open spec fn enc_values_body(vs: Seq<Seq<char>>) -> Seq<u8> {
    if vs.len() == 0 {
        seq![0x5b, 0x5d]
    } else {
        seq![0x5b, 0x0a] + enc_items(vs) + seq![0x0a, 0x20, 0x20, 0x5d]
    }
}

/// Pretty-printed encoding of a tag document: two-space indentation, the
/// `replace` member first when present, the `values` list one item per line.
pub open spec fn spec_encode_tag(t: TagView) -> Seq<u8> {
    seq![0x7b, 0x0a] + (match t.replace {
        Some(flag) => enc_replace_member(flag),
        None => Seq::empty(),
    }) + enc_values_head() + enc_values_body(t.values) + seq![0x0a, 0x7d]
}

/// Append the escaped, quoted encoding of `v` to `out`.
fn push_quoted(out: &mut Vec<u8>, v: &str)
    requires
        forall|k: int| 0 <= k < v@.len() ==> is_tag_char(#[trigger] v@[k]),
    ensures
        final(out)@ == old(out)@ + enc_quoted(v@),
{
    let ghost base = out@;
    out.push(0x22);
    let len = v.unicode_len();
    let mut i: usize = 0;
    while i < len
        invariant
            len == v@.len(),
            0 <= i <= len,
            forall|k: int| 0 <= k < v@.len() ==> is_tag_char(#[trigger] v@[k]),
            out@ == base + seq![0x22u8] + enc_str(v@.take(i as int)),
        decreases len - i,
    {
        let c = v.get_char(i);
        proof {
            lemma_enc_str_concat(v@.take(i as int), seq![v@[i as int]]);
            assert(v@.take(i + 1) =~= v@.take(i as int) + seq![v@[i as int]]);
            assert(seq![v@[i as int]].drop_first() =~= Seq::<char>::empty());
            assert(enc_str(seq![v@[i as int]]) == enc_char(v@[i as int]) + enc_str(
                Seq::<char>::empty(),
            ));
            assert(enc_char(v@[i as int]) + Seq::<u8>::empty() =~= enc_char(v@[i as int]));
        }
        if c == '"' {
            out.push(0x5c);
            out.push(0x22);
        } else if c == '\\' {
            out.push(0x5c);
            out.push(0x5c);
        } else {
            let code = c as u32;
            assert(code <= 0x7e);
            out.push(code as u8);
        }
        proof {
            assert(out@ =~= base + seq![0x22u8] + enc_str(v@.take(i + 1)));
        }
        i += 1;
    }
    proof {
        assert(v@.take(len as int) =~= v@);
    }
    out.push(0x22);
    proof {
        assert(out@ =~= base + enc_quoted(v@));
    }
}

/// Append the `replace` member, with its trailing comma and newline.
fn push_replace_member(out: &mut Vec<u8>, flag: bool)
    ensures
        final(out)@ == old(out)@ + enc_replace_member(flag),
{
    let ghost before = out@;
    out.push(0x20);
    out.push(0x20);
    out.push(0x22);
    out.push(0x72);
    out.push(0x65);
    out.push(0x70);
    out.push(0x6c);
    out.push(0x61);
    out.push(0x63);
    out.push(0x65);
    out.push(0x22);
    out.push(0x3a);
    out.push(0x20);
    if flag {
        out.push(0x74);
        out.push(0x72);
        out.push(0x75);
        out.push(0x65);
    } else {
        out.push(0x66);
        out.push(0x61);
        out.push(0x6c);
        out.push(0x73);
        out.push(0x65);
    }
    out.push(0x2c);
    out.push(0x0a);
    proof {
        assert(out@ =~= before + enc_replace_member(flag));
    }
}

/// Append the `  "values": ` key.
fn push_values_head(out: &mut Vec<u8>)
    ensures
        final(out)@ == old(out)@ + enc_values_head(),
{
    let ghost before = out@;
    out.push(0x20);
    out.push(0x20);
    out.push(0x22);
    out.push(0x76);
    out.push(0x61);
    out.push(0x6c);
    out.push(0x75);
    out.push(0x65);
    out.push(0x73);
    out.push(0x22);
    out.push(0x3a);
    out.push(0x20);
    proof {
        assert(out@ =~= before + enc_values_head());
    }
}

/// Append the bracketed value list.
fn push_values_body(out: &mut Vec<u8>, values: &Vec<String>)
    requires
        forall|a: int, b: int|
            0 <= a < values.deep_view().len() && 0 <= b < values.deep_view()[a].len()
                ==> is_tag_char(#[trigger] values.deep_view()[a][b]),
    ensures
        final(out)@ == old(out)@ + enc_values_body(values.deep_view()),
{
    let ghost dv = values.deep_view();
    let ghost base = out@;
    if values.len() == 0 {
        out.push(0x5b);
        out.push(0x5d);
        proof {
            assert(out@ =~= base + enc_values_body(dv));
        }
        return ;
    }
    out.push(0x5b);
    out.push(0x0a);
    proof {
        assert(dv[0] == values[0]@);
    }
    push_quoted_item(out, &values[0]);
    proof {
        assert(out@ =~= base + seq![0x5bu8, 0x0a] + enc_item(dv[0]));
        assert(dv.subrange(1, 1) =~= Seq::<Seq<char>>::empty());
        assert(out@ =~= base + seq![0x5bu8, 0x0a] + enc_item(dv[0]) + enc_rest(
            dv.subrange(1, 1),
        ));
    }
    let mut k: usize = 1;
    while k < values.len()
        invariant
            1 <= k <= values.len(),
            dv == values.deep_view(),
            dv.len() == values.len(),
            forall|a: int, b: int|
                0 <= a < dv.len() && 0 <= b < dv[a].len() ==> is_tag_char(#[trigger] dv[a][b]),
            out@ == base + seq![0x5bu8, 0x0a] + enc_item(dv[0]) + enc_rest(
                dv.subrange(1, k as int),
            ),
        decreases values.len() - k,
    {
        out.push(0x2c);
        out.push(0x0a);
        proof {
            assert(values[k as int]@ == dv[k as int]);
        }
        push_quoted_item(out, &values[k]);
        proof {
            lemma_enc_rest_concat(dv.subrange(1, k as int), seq![dv[k as int]]);
            assert(dv.subrange(1, k + 1) =~= dv.subrange(1, k as int) + seq![dv[k as int]]);
            assert(seq![dv[k as int]].drop_first() =~= Seq::<Seq<char>>::empty());
            assert(enc_rest(seq![dv[k as int]]) == seq![0x2cu8, 0x0a] + enc_item(dv[k as int])
                + enc_rest(Seq::<Seq<char>>::empty()));
            assert(seq![0x2cu8, 0x0a] + enc_item(dv[k as int]) + Seq::<u8>::empty() =~= seq![
                0x2cu8,
                0x0a,
            ] + enc_item(dv[k as int]));
            assert(out@ =~= base + seq![0x5bu8, 0x0a] + enc_item(dv[0]) + enc_rest(
                dv.subrange(1, k + 1),
            ));
        }
        k += 1;
    }
    proof {
        assert(dv.subrange(1, dv.len() as int) =~= dv.drop_first());
    }
    out.push(0x0a);
    out.push(0x20);
    out.push(0x20);
    out.push(0x5d);
    proof {
        assert(out@ =~= base + enc_values_body(dv));
    }
}

impl Tag {
    /// Encode this document as pretty-printed JSON.
    pub fn encode(&self) -> (r: Vec<u8>)
        requires
            self@.wf(),
        ensures
            r@ == spec_encode_tag(self@),
    {
        let mut out: Vec<u8> = Vec::new();
        out.push(0x7b);
        out.push(0x0a);
        let ghost opened = out@;
        match self.replace {
            Some(flag) => {
                push_replace_member(&mut out, flag);
            },
            None => {
                proof {
                    assert(out@ =~= opened + Seq::<u8>::empty());
                }
            },
        }
        proof {
            assert(out@ == seq![0x7bu8, 0x0a] + (match self@.replace {
                Some(flag) => enc_replace_member(flag),
                None => Seq::<u8>::empty(),
            })) by {
                assert(opened =~= seq![0x7bu8, 0x0a]);
            }
        }
        push_values_head(&mut out);
        proof {
            assert(self.values.deep_view() == self@.values);
            assert forall|a: int, b: int|
                0 <= a < self@.values.len() && 0 <= b < self@.values[a].len() implies is_tag_char(
                #[trigger] self@.values[a][b],
            ) by {}
        }
        push_values_body(&mut out, &self.values);
        out.push(0x0a);
        out.push(0x7d);
        proof {
            assert(out@ =~= spec_encode_tag(self@));
        }
        out
    }
}

/// Append one indented, quoted list item to `out`.
fn push_quoted_item(out: &mut Vec<u8>, v: &String)
    requires
        forall|k: int| 0 <= k < v@.len() ==> is_tag_char(#[trigger] v@[k]),
    ensures
        final(out)@ == old(out)@ + enc_item(v@),
{
    let ghost base = out@;
    out.push(0x20);
    out.push(0x20);
    out.push(0x20);
    out.push(0x20);
    push_quoted(out, v.as_str());
    proof {
        assert(out@ =~= base + enc_item(v@));
    }
}

/// The payload of a merged pair of tag leaves: both payloads are decoded
/// leniently, the incoming values are appended after the base values, the
/// base `replace` flag is kept, and the result is re-encoded.
pub open spec fn spec_merge_tag_payload(b: Seq<u8>, i: Seq<u8>) -> Seq<u8> {
    spec_encode_tag(
        TagView {
            replace: spec_decode_lenient(b).replace,
            values: spec_decode_lenient(b).values + spec_decode_lenient(i).values,
        },
    )
}

/// Merge two tag payloads at the JSON level: concatenate their value lists,
/// base side first, keeping the base `replace` flag.
pub fn merge_tag_payload(base: &[u8], inc: &[u8]) -> (r: Vec<u8>)
    ensures
        r@ == spec_merge_tag_payload(base@, inc@),
{
    let mut b = match Tag::decode(base) {
        Some(t) => t,
        None => Tag::default(),
    };
    let mut i = match Tag::decode(inc) {
        Some(t) => t,
        None => Tag::default(),
    };
    proof {
        lemma_parse_tag_wf(base@);
        lemma_parse_tag_wf(inc@);
    }
    let ghost bdv = b.values.deep_view();
    let ghost idv = i.values.deep_view();
    b.values.append(&mut i.values);
    let merged = Tag { replace: b.replace, values: b.values };
    proof {
        assert(merged.values.deep_view() =~= bdv + idv);
        assert(merged@ =~= TagView {
            replace: spec_decode_lenient(base@).replace,
            values: spec_decode_lenient(base@).values + spec_decode_lenient(inc@).values,
        });
    }
    merged.encode()
}

proof fn lemma_parse_members_wf(s: Seq<u8>, key1: Seq<char>, i: int)
    requires
        0 <= i <= s.len(),
    ensures
        spec_parse_members(s, key1, i) matches Some((t, p)) ==> {
            &&& i <= p <= s.len()
            &&& t.wf()
        },
{
    if key1 == "replace"@ {
        lemma_parse_colon_bool_bounds(s, i);
        match spec_parse_colon_bool(s, i) {
            None => {},
            Some((flag, j)) => {
                lemma_skip_ws_bounds(s, j);
                let k = spec_skip_ws(s, j);
                if k < s.len() && s[k] == 0x2c {
                    lemma_skip_ws_bounds(s, k + 1);
                    let m0 = spec_skip_ws(s, k + 1);
                    lemma_parse_jstring_bounds(s, m0);
                    match spec_parse_jstring(s, m0) {
                        None => {},
                        Some((key2, m)) => {
                            lemma_parse_colon_list_wf(s, m);
                        },
                    }
                }
            },
        }
    } else if key1 == "values"@ {
        lemma_parse_colon_list_wf(s, i);
        match spec_parse_colon_list(s, i) {
            None => {},
            Some((vs, j)) => {
                lemma_skip_ws_bounds(s, j);
                let k = spec_skip_ws(s, j);
                if k < s.len() && s[k] == 0x2c {
                    lemma_skip_ws_bounds(s, k + 1);
                    let m0 = spec_skip_ws(s, k + 1);
                    lemma_parse_jstring_bounds(s, m0);
                    match spec_parse_jstring(s, m0) {
                        None => {},
                        Some((key2, m)) => {
                            lemma_parse_colon_bool_bounds(s, m);
                        },
                    }
                }
            },
        }
    }
}


/// Skipping whitespace runs to the first non-whitespace byte.
pub proof fn lemma_skip_ws_over(s: Seq<u8>, i: int, j: int)
    requires
        0 <= i <= j < s.len(),
        forall|k: int| i <= k < j ==> is_ws(#[trigger] s[k]),
        !is_ws(s[j]),
    ensures
        spec_skip_ws(s, i) == j,
    decreases j - i,
{
    if i < j {
        lemma_skip_ws_over(s, i + 1, j);
    }
}

/// The encoded body of a string, followed by its closing quote, decodes back
/// to the string.
pub proof fn lemma_parse_enc_str(v: Seq<char>, s: Seq<u8>, i: int)
    requires
        forall|k: int| 0 <= k < v.len() ==> is_tag_char(#[trigger] v[k]),
        0 <= i,
        i + enc_str(v).len() + 1 <= s.len(),
        s.subrange(i, i + enc_str(v).len()) == enc_str(v),
        s[i + enc_str(v).len()] == 0x22,
    ensures
        spec_parse_str_body(s, i) == Some((v, i + enc_str(v).len() + 1)),
    decreases v.len(),
{
    let full = enc_str(v);
    if v.len() == 0 {
        assert(s[i] == 0x22);
    } else {
        let c = v[0];
        let rest = v.drop_first();
        let head = enc_char(c);
        let tail = enc_str(rest);
        assert(full == head + tail);
        assert(full.len() == head.len() + tail.len());
        assert forall|k: int| 0 <= k < head.len() implies s[i + k] == head[k] by {
            assert(s.subrange(i, i + full.len())[k] == s[i + k]);
            assert(full[k] == head[k]);
        }
        let m = i + head.len();
        assert(s.subrange(m, m + tail.len()) =~= tail) by {
            assert forall|k: int| 0 <= k < tail.len() implies s.subrange(m, m + tail.len())[k]
                == tail[k] by {
                assert(s.subrange(m, m + tail.len())[k] == s[m + k]);
                assert(s.subrange(i, i + full.len())[head.len() + k] == s[m + k]);
                assert(full[head.len() + k] == tail[k]);
            }
        }
        lemma_parse_enc_str(rest, s, m);
        if c == '"' {
            assert(s[i] == 0x5c && s[i + 1] == 0x22);
            assert(spec_unescape(s[i + 1]) == Some('"'));
            assert(seq!['"'] + rest =~= v);
        } else if c == '\\' {
            assert(s[i] == 0x5c && s[i + 1] == 0x5c);
            assert(spec_unescape(s[i + 1]) == Some('\\'));
            assert(seq!['\\'] + rest =~= v);
        } else {
            let b = (c as u32) as u8;
            assert(head[0] == b);
            assert(s[i + 0] == head[0]);
            assert(s[i] == b);
            assert(is_tag_char(c));
            assert(0x20 <= b <= 0x7e);
            assert(b != 0x22 && b != 0x5c) by {
                assert(('"' as u32) == 0x22 && ('\\' as u32) == 0x5c);
            }
            assert((b as char) == c);
            assert(seq![s[i] as char] + rest =~= v);
        }
    }
}

/// A whole encoded, quoted string decodes back to its value.
pub proof fn lemma_parse_enc_quoted(v: Seq<char>, s: Seq<u8>, i: int)
    requires
        forall|k: int| 0 <= k < v.len() ==> is_tag_char(#[trigger] v[k]),
        0 <= i,
        i + enc_quoted(v).len() <= s.len(),
        s.subrange(i, i + enc_quoted(v).len()) == enc_quoted(v),
    ensures
        spec_parse_jstring(s, i) == Some((v, i + enc_quoted(v).len())),
{
    let q = enc_quoted(v);
    assert(q.len() == enc_str(v).len() + 2);
    assert forall|k: int| 0 <= k < q.len() implies s[i + k] == q[k] by {
        assert(s.subrange(i, i + q.len())[k] == s[i + k]);
    }
    assert(q[0] == 0x22);
    assert(s[i] == 0x22);
    assert(s.subrange(i + 1, i + 1 + enc_str(v).len()) =~= enc_str(v)) by {
        assert forall|k: int| 0 <= k < enc_str(v).len() implies s.subrange(
            i + 1,
            i + 1 + enc_str(v).len(),
        )[k] == enc_str(v)[k] by {
            assert(s.subrange(i + 1, i + 1 + enc_str(v).len())[k] == s[i + 1 + k]);
            assert(q[1 + k] == (seq![0x22u8] + enc_str(v))[1 + k]);
            assert((seq![0x22u8] + enc_str(v))[1 + k] == enc_str(v)[k]);
        }
    }
    assert(q[q.len() - 1] == (seq![0x22u8] + enc_str(v) + seq![0x22u8])[q.len() - 1]);
    assert(s[i + 1 + enc_str(v).len()] == 0x22);
    lemma_parse_enc_str(v, s, i + 1);
}


/// The bytes from a non-empty value list's first opening quote through its
/// closing `]`, as the encoder lays them out.
pub open spec fn enc_items_tail(vs: Seq<Seq<char>>) -> Seq<u8> {
    enc_quoted(vs[0]) + enc_rest(vs.drop_first()) + seq![0x0a, 0x20, 0x20, 0x5d]
}

/// The encoded items of a non-empty value list decode back to the list.
pub proof fn lemma_parse_enc_items(vs: Seq<Seq<char>>, s: Seq<u8>, i: int)
    requires
        vs.len() > 0,
        forall|a: int, b: int|
            0 <= a < vs.len() && 0 <= b < vs[a].len() ==> is_tag_char(#[trigger] vs[a][b]),
        0 <= i,
        i + enc_items_tail(vs).len() <= s.len(),
        s.subrange(i, i + enc_items_tail(vs).len()) == enc_items_tail(vs),
    ensures
        spec_parse_list_items(s, i) == Some((vs, i + enc_items_tail(vs).len())),
    decreases vs.len(),
{
    let t = enc_items_tail(vs);
    assert forall|k: int| 0 <= k < t.len() implies s[i + k] == t[k] by {
        assert(s.subrange(i, i + t.len())[k] == s[i + k]);
    }
    let q0 = enc_quoted(vs[0]);
    assert(s.subrange(i, i + q0.len()) =~= q0) by {
        assert forall|k: int| 0 <= k < q0.len() implies s.subrange(i, i + q0.len())[k]
            == q0[k] by {
            assert(s.subrange(i, i + q0.len())[k] == s[i + k]);
            assert(t[k as int] == q0[k]);
        }
    }
    assert forall|b: int| 0 <= b < vs[0].len() implies is_tag_char(#[trigger] vs[0][b]) by {}
    lemma_parse_enc_quoted(vs[0], s, i);
    let q = i + q0.len();
    let rest = vs.drop_first();
    if vs.len() == 1 {
        assert(rest.len() == 0);
        assert(enc_rest(rest) == Seq::<u8>::empty());
        assert(t =~= q0 + seq![0x0au8, 0x20, 0x20, 0x5d]);
        assert(s[q] == 0x0a && s[q + 1] == 0x20 && s[q + 2] == 0x20 && s[q + 3] == 0x5d) by {
            assert(t[q0.len() as int] == 0x0a);
            assert(t[q0.len() + 1 as int] == 0x20);
            assert(t[q0.len() + 2 as int] == 0x20);
            assert(t[q0.len() + 3 as int] == 0x5d);
        }
        lemma_skip_ws_over(s, q, q + 3);
        assert(spec_parse_list_items(s, i) == Some((seq![vs[0]], q + 4)));
        assert(seq![vs[0]] =~= vs);
    } else {
        let sep = seq![0x2cu8, 0x0a, 0x20, 0x20, 0x20, 0x20];
        assert(enc_rest(rest) == seq![0x2cu8, 0x0a] + enc_item(rest[0]) + enc_rest(
            rest.drop_first(),
        ));
        assert(t =~= q0 + sep + enc_items_tail(rest)) by {
            assert(enc_item(rest[0]) =~= seq![0x20u8, 0x20, 0x20, 0x20] + enc_quoted(rest[0]));
            assert(enc_items_tail(rest) == enc_quoted(rest[0]) + enc_rest(rest.drop_first())
                + seq![0x0au8, 0x20, 0x20, 0x5d]);
        }
        assert(s[q] == 0x2c && s[q + 1] == 0x0a && s[q + 2] == 0x20 && s[q + 3] == 0x20 && s[q
            + 4] == 0x20 && s[q + 5] == 0x20) by {
            assert(t[q0.len() as int] == 0x2c);
            assert(t[q0.len() + 1 as int] == 0x0a);
            assert(t[q0.len() + 2 as int] == 0x20);
            assert(t[q0.len() + 3 as int] == 0x20);
            assert(t[q0.len() + 4 as int] == 0x20);
            assert(t[q0.len() + 5 as int] == 0x20);
        }
        let m = q + 6;
        let t2 = enc_items_tail(rest);
        assert(s.subrange(m, m + t2.len()) =~= t2) by {
            assert forall|k: int| 0 <= k < t2.len() implies s.subrange(m, m + t2.len())[k]
                == t2[k] by {
                assert(s.subrange(m, m + t2.len())[k] == s[m + k]);
                assert(t[q0.len() + 6 + k as int] == t2[k]);
            }
        }
        assert(t2[0] == (enc_quoted(rest[0]) + enc_rest(rest.drop_first()) + seq![
            0x0au8,
            0x20,
            0x20,
            0x5d,
        ])[0]);
        assert(t2[0] == 0x22);
        assert(s[m] == t2[0]) by {
            assert(t[q0.len() + 6 as int] == t2[0]);
        }
        assert forall|a: int, b: int|
            0 <= a < rest.len() && 0 <= b < rest[a].len() implies is_tag_char(
            #[trigger] rest[a][b],
        ) by {
            assert(rest[a] == vs[a + 1]);
        }
        lemma_parse_enc_items(rest, s, m);
        lemma_skip_ws_over(s, q + 1, m);
        assert(spec_skip_ws(s, q) == q) by {
            assert(!is_ws(s[q]));
        }
        assert(spec_parse_list_items(s, i) == Some((seq![vs[0]] + rest, i + t.len())));
        assert(seq![vs[0]] + rest =~= vs);
    }
}


/// Encoding a string with no quote or backslash in it is the pointwise byte
/// image of its characters.
pub proof fn lemma_enc_str_plain(v: Seq<char>)
    requires
        forall|k: int|
            0 <= k < v.len() ==> is_tag_char(#[trigger] v[k]) && v[k] != '"' && v[k] != '\\',
    ensures
        enc_str(v).len() == v.len(),
        forall|k: int| 0 <= k < v.len() ==> enc_str(v)[k] == ((#[trigger] v[k] as u32) as u8),
    decreases v.len(),
{
    if v.len() > 0 {
        assert forall|k: int|
            0 <= k < v.drop_first().len() implies is_tag_char(#[trigger] v.drop_first()[k])
            && v.drop_first()[k] != '"' && v.drop_first()[k] != '\\' by {
            assert(v.drop_first()[k] == v[k + 1]);
        }
        lemma_enc_str_plain(v.drop_first());
        assert(enc_char(v[0]) == seq![((v[0] as u32) as u8)]);
        assert forall|k: int| 0 <= k < v.len() implies enc_str(v)[k] == ((#[trigger] v[k] as u32)
            as u8) by {
            if k > 0 {
                assert(enc_str(v)[k] == enc_str(v.drop_first())[k - 1]);
                assert(v.drop_first()[k - 1] == v[k]);
            }
        }
    }
}

/// A `: ` followed by an encoded value list decodes back to the list.
pub proof fn lemma_parse_colon_list_enc(vs: Seq<Seq<char>>, s: Seq<u8>, i: int)
    requires
        forall|a: int, b: int|
            0 <= a < vs.len() && 0 <= b < vs[a].len() ==> is_tag_char(#[trigger] vs[a][b]),
        0 <= i,
        i + 2 + enc_values_body(vs).len() <= s.len(),
        s[i] == 0x3a,
        s[i + 1] == 0x20,
        s.subrange(i + 2, i + 2 + enc_values_body(vs).len()) == enc_values_body(vs),
    ensures
        spec_parse_colon_list(s, i) == Some((vs, i + 2 + enc_values_body(vs).len())),
{
    let body = enc_values_body(vs);
    assert forall|k: int| 0 <= k < body.len() implies s[i + 2 + k] == body[k] by {
        assert(s.subrange(i + 2, i + 2 + body.len())[k] == s[i + 2 + k]);
    }
    assert(spec_skip_ws(s, i) == i) by {
        assert(!is_ws(s[i]));
    }
    let l0 = i + 2;
    assert(s[l0] == 0x5b) by {
        assert(body[0] == 0x5b);
    }
    lemma_skip_ws_over(s, i + 1, i + 2);
    if vs.len() == 0 {
        assert(body =~= seq![0x5bu8, 0x5d]);
        assert(s[l0 + 1] == 0x5d) by {
            assert(body[1] == 0x5d);
        }
        assert(spec_skip_ws(s, l0 + 1) == l0 + 1) by {
            assert(!is_ws(s[l0 + 1]));
        }
        assert(spec_parse_list(s, l0) == Some((Seq::<Seq<char>>::empty(), l0 + 2)));
        assert(Seq::<Seq<char>>::empty() =~= vs);
    } else {
        let t = enc_items_tail(vs);
        assert(body =~= seq![0x5bu8, 0x0a, 0x20, 0x20, 0x20, 0x20] + t) by {
            assert(enc_items(vs) == enc_item(vs[0]) + enc_rest(vs.drop_first()));
            assert(enc_item(vs[0]) == seq![0x20u8, 0x20, 0x20, 0x20] + enc_quoted(vs[0]));
            assert(t == enc_quoted(vs[0]) + enc_rest(vs.drop_first()) + seq![
                0x0au8,
                0x20,
                0x20,
                0x5d,
            ]);
        }
        assert(s[l0 + 1] == 0x0a && s[l0 + 2] == 0x20 && s[l0 + 3] == 0x20 && s[l0 + 4] == 0x20
            && s[l0 + 5] == 0x20) by {
            assert(body[1] == 0x0a);
            assert(body[2] == 0x20);
            assert(body[3] == 0x20);
            assert(body[4] == 0x20);
            assert(body[5] == 0x20);
        }
        let m = l0 + 6;
        assert(s.subrange(m, m + t.len()) =~= t) by {
            assert forall|k: int| 0 <= k < t.len() implies s.subrange(m, m + t.len())[k]
                == t[k] by {
                assert(s.subrange(m, m + t.len())[k] == s[m + k]);
                assert(body[6 + k] == t[k]);
            }
        }
        assert(s[m] == 0x22) by {
            assert(t[0] == (enc_quoted(vs[0]) + enc_rest(vs.drop_first()) + seq![
                0x0au8,
                0x20,
                0x20,
                0x5d,
            ])[0]);
            assert(body[6] == t[0]);
        }
        lemma_parse_enc_items(vs, s, m);
        lemma_skip_ws_over(s, l0 + 1, m);
        assert(spec_parse_list(s, l0) == Some((vs, i + 2 + body.len())));
    }
}


/// The byte shapes of the two member keys.
proof fn lemma_key_bytes()
    ensures
        "values"@.len() == 6,
        "replace"@.len() == 7,
        "values"@ != "replace"@,
        forall|k: int| 0 <= k < "values"@.len() ==> is_tag_char(#[trigger] "values"@[k]),
        forall|k: int| 0 <= k < "replace"@.len() ==> is_tag_char(#[trigger] "replace"@[k]),
        enc_quoted("values"@) == seq![0x22u8, 0x76, 0x61, 0x6c, 0x75, 0x65, 0x73, 0x22],
        enc_quoted("replace"@) == seq![0x22u8, 0x72, 0x65, 0x70, 0x6c, 0x61, 0x63, 0x65, 0x22],
{
    reveal_strlit("values");
    reveal_strlit("replace");
    let vkey = "values"@;
    let rkey = "replace"@;
    assert forall|k: int|
        0 <= k < vkey.len() implies is_tag_char(#[trigger] vkey[k]) && vkey[k] != '"' && vkey[k]
        != '\\' by {}
    assert forall|k: int|
        0 <= k < rkey.len() implies is_tag_char(#[trigger] rkey[k]) && rkey[k] != '"' && rkey[k]
        != '\\' by {}
    lemma_enc_str_plain(vkey);
    lemma_enc_str_plain(rkey);
    assert(enc_quoted(vkey) =~= seq![0x22u8, 0x76, 0x61, 0x6c, 0x75, 0x65, 0x73, 0x22]) by {
        assert(enc_str(vkey)[0] == ((vkey[0] as u32) as u8));
        assert(enc_str(vkey)[1] == ((vkey[1] as u32) as u8));
        assert(enc_str(vkey)[2] == ((vkey[2] as u32) as u8));
        assert(enc_str(vkey)[3] == ((vkey[3] as u32) as u8));
        assert(enc_str(vkey)[4] == ((vkey[4] as u32) as u8));
        assert(enc_str(vkey)[5] == ((vkey[5] as u32) as u8));
    }
    assert(enc_quoted(rkey) =~= seq![0x22u8, 0x72, 0x65, 0x70, 0x6c, 0x61, 0x63, 0x65, 0x22]) by {
        assert(enc_str(rkey)[0] == ((rkey[0] as u32) as u8));
        assert(enc_str(rkey)[1] == ((rkey[1] as u32) as u8));
        assert(enc_str(rkey)[2] == ((rkey[2] as u32) as u8));
        assert(enc_str(rkey)[3] == ((rkey[3] as u32) as u8));
        assert(enc_str(rkey)[4] == ((rkey[4] as u32) as u8));
        assert(enc_str(rkey)[5] == ((rkey[5] as u32) as u8));
        assert(enc_str(rkey)[6] == ((rkey[6] as u32) as u8));
    }
}

/// Round trip of a document with no `replace` member.
#[verifier::rlimit(80)]
proof fn lemma_round_trip_none(t: TagView)
    requires
        t.wf(),
        t.replace is None,
    ensures
        spec_parse_tag(spec_encode_tag(t)) == Some(t),
{
    let s = spec_encode_tag(t);
    let h = enc_values_head();
    let b = enc_values_body(t.values);
    let vs = t.values;
    lemma_key_bytes();
    let vkey = "values"@;
    let rkey = "replace"@;
    let qv = enc_quoted(vkey);
    assert forall|a: int, k: int|
        0 <= a < vs.len() && 0 <= k < vs[a].len() implies is_tag_char(#[trigger] vs[a][k]) by {}

    let c1 = seq![0x7bu8, 0x0a] + h;
    let c2 = c1 + b;
    let c3 = c2 + seq![0x0au8, 0x7d];
    assert(s =~= c3);
    let p = 14 + b.len() as int;
    assert(s.len() == p + 2);
    assert forall|j: int| 0 <= j < 12 implies s[2 + j] == h[j] by {
        assert(c3[2 + j] == c2[2 + j]);
        assert(c2[2 + j] == c1[2 + j]);
        assert(c1[2 + j] == h[j]);
    }
    assert forall|j: int| 0 <= j < b.len() implies s[14 + j] == b[j] by {
        assert(c3[14 + j] == c2[14 + j]);
        assert(c2[14 + j] == b[j]);
    }
    assert(s[0] == 0x7b && s[1] == 0x0a) by {
        assert(c3[0] == c2[0] && c2[0] == c1[0]);
        assert(c3[1] == c2[1] && c2[1] == c1[1]);
    }
    assert(s[p] == 0x0a && s[p + 1] == 0x7d) by {
        assert(c3[p] == 0x0a);
        assert(c3[p + 1] == 0x7d);
    }
    assert(spec_skip_ws(s, 0) == 0) by {
        assert(!is_ws(s[0]));
    }
    assert(s[4] == 0x22 && s[2] == 0x20 && s[3] == 0x20);
    lemma_skip_ws_over(s, 1, 4);
    assert(s.subrange(4, 12) =~= qv) by {
        assert forall|k: int| 0 <= k < 8 implies s.subrange(4, 12)[k] == qv[k] by {
            assert(s.subrange(4, 12)[k] == s[4 + k]);
            assert(s[4 + k] == h[2 + k]);
        }
    }
    lemma_parse_enc_quoted(vkey, s, 4);
    assert(s[12] == 0x3a && s[13] == 0x20);
    assert(s.subrange(14, 14 + b.len() as int) =~= b) by {
        assert forall|k: int| 0 <= k < b.len() implies s.subrange(14, 14 + b.len() as int)[k]
            == b[k] by {
            assert(s.subrange(14, 14 + b.len() as int)[k] == s[14 + k]);
        }
    }
    lemma_parse_colon_list_enc(vs, s, 12);
    lemma_skip_ws_over(s, p, p + 1);
    assert(spec_parse_members(s, vkey, 12) == Some(
        (TagView { replace: None, values: vs }, p),
    ));
    assert(spec_skip_ws(s, p + 2) == s.len());
    assert(spec_parse_tag(s) == Some(TagView { replace: None, values: vs }));
    assert(TagView { replace: None, values: vs } =~= t);
}

/// Byte layout of an encoded document with a `replace` member.
#[verifier::rlimit(90)]
proof fn lemma_some_layout(t: TagView, flag: bool)
    requires
        t.replace == Some(flag),
    ensures
        ({
            let s = spec_encode_tag(t);
            let b = enc_values_body(t.values);
            let bl: int = if flag {
                4
            } else {
                5
            };
            let bend = 15 + bl;
            let b0 = bend + 14;
            let p = b0 + b.len() as int;
            &&& s.len() == p + 2
            &&& s[0] == 0x7b && s[1] == 0x0a && s[2] == 0x20 && s[3] == 0x20
            &&& s.subrange(4, 13) == seq![0x22u8, 0x72, 0x65, 0x70, 0x6c, 0x61, 0x63, 0x65, 0x22]
            &&& s[13] == 0x3a && s[14] == 0x20
            &&& (flag ==> s[15] == 0x74 && s[16] == 0x72 && s[17] == 0x75 && s[18] == 0x65)
            &&& (!flag ==> s[15] == 0x66 && s[16] == 0x61 && s[17] == 0x6c && s[18] == 0x73 && s[19] == 0x65)
            &&& s[bend] == 0x2c && s[bend + 1] == 0x0a && s[bend + 2] == 0x20 && s[bend + 3] == 0x20
            &&& s.subrange(bend + 4, bend + 12) == seq![0x22u8, 0x76, 0x61, 0x6c, 0x75, 0x65, 0x73, 0x22]
            &&& s[bend + 12] == 0x3a && s[bend + 13] == 0x20
            &&& s.subrange(b0, p) == b
            &&& s[p] == 0x0a && s[p + 1] == 0x7d
        }),
{
    let s = spec_encode_tag(t);
    let h = enc_values_head();
    let b = enc_values_body(t.values);
    let r = enc_replace_member(flag);
    let bl: int = if flag {
        4
    } else {
        5
    };
    assert(r.len() == 15 + bl);
    let c1 = seq![0x7bu8, 0x0a] + r;
    let c2 = c1 + h;
    let c3 = c2 + b;
    let c4 = c3 + seq![0x0au8, 0x7d];
    assert(s =~= c4);
    let h0 = 2 + r.len() as int;
    let b0 = h0 + 12;
    let p = b0 + b.len() as int;
    assert(s.len() == p + 2);
    assert forall|j: int| 0 <= j < r.len() implies s[2 + j] == r[j] by {
        assert(c4[2 + j] == c3[2 + j]);
        assert(c3[2 + j] == c2[2 + j]);
        assert(c2[2 + j] == c1[2 + j]);
        assert(c1[2 + j] == r[j]);
    }
    assert forall|j: int| 0 <= j < 12 implies s[h0 + j] == h[j] by {
        assert(c4[h0 + j] == c3[h0 + j]);
        assert(c3[h0 + j] == c2[h0 + j]);
        assert(c2[h0 + j] == h[j]);
    }
    assert forall|j: int| 0 <= j < b.len() implies s[b0 + j] == b[j] by {
        assert(c4[b0 + j] == c3[b0 + j]);
        assert(c3[b0 + j] == b[j]);
    }
    assert(s[0] == 0x7b && s[1] == 0x0a) by {
        assert(c4[0] == c3[0] && c3[0] == c2[0] && c2[0] == c1[0]);
        assert(c4[1] == c3[1] && c3[1] == c2[1] && c2[1] == c1[1]);
    }
    assert(s[p] == 0x0a && s[p + 1] == 0x7d) by {
        assert(c4[p] == 0x0a);
        assert(c4[p + 1] == 0x7d);
    }
    let a13 = seq![0x20u8, 0x20, 0x22, 0x72, 0x65, 0x70, 0x6c, 0x61, 0x63, 0x65, 0x22, 0x3a, 0x20];
    let fb = if flag {
        seq![0x74u8, 0x72, 0x75, 0x65]
    } else {
        seq![0x66u8, 0x61, 0x6c, 0x73, 0x65]
    };
    assert(r =~= a13 + fb + seq![0x2cu8, 0x0a]);
    assert forall|j: int| 0 <= j < 13 implies r[j] == a13[j] by {
        assert(r[j] == (a13 + fb + seq![0x2cu8, 0x0a])[j]);
    }
    assert forall|j: int| 0 <= j < bl implies r[13 + j] == fb[j] by {
        assert(r[13 + j] == (a13 + fb + seq![0x2cu8, 0x0a])[13 + j]);
    }
    assert(r[13 + bl] == 0x2c && r[14 + bl] == 0x0a) by {
        assert(r[13 + bl] == (a13 + fb + seq![0x2cu8, 0x0a])[13 + bl]);
        assert(r[14 + bl] == (a13 + fb + seq![0x2cu8, 0x0a])[14 + bl]);
    }
    let bend = 15 + bl;
    assert(s.subrange(4, 13) =~= seq![0x22u8, 0x72, 0x65, 0x70, 0x6c, 0x61, 0x63, 0x65, 0x22]) by {
        assert forall|k: int| 0 <= k < 9 implies s.subrange(4, 13)[k] == seq![0x22u8, 0x72, 0x65, 0x70, 0x6c, 0x61, 0x63, 0x65, 0x22][k] by {
            assert(s.subrange(4, 13)[k] == s[4 + k]);
            assert(s[4 + k] == r[2 + k]);
        }
    }
    assert(s.subrange(bend + 4, bend + 12) =~= seq![0x22u8, 0x76, 0x61, 0x6c, 0x75, 0x65, 0x73, 0x22]) by {
        assert forall|k: int| 0 <= k < 8 implies s.subrange(bend + 4, bend + 12)[k] == seq![0x22u8, 0x76, 0x61, 0x6c, 0x75, 0x65, 0x73, 0x22][k] by {
            assert(s.subrange(bend + 4, bend + 12)[k] == s[bend + 4 + k]);
            assert(s[h0 + 2 + k] == h[2 + k]);
        }
    }
    assert(s[bend + 12] == 0x3a && s[bend + 13] == 0x20) by {
        assert(s[h0 + 10] == h[10]);
        assert(s[h0 + 11] == h[11]);
    }
    assert(s.subrange(b0, p) =~= b) by {
        assert forall|k: int| 0 <= k < b.len() implies s.subrange(b0, p)[k] == b[k] by {
            assert(s.subrange(b0, p)[k] == s[b0 + k]);
        }
    }
}

/// The members of an encoded document with a `replace` member parse back
/// to the document.
#[verifier::rlimit(80)]
proof fn lemma_members_some(t: TagView, flag: bool)
    requires
        t.wf(),
        t.replace == Some(flag),
    ensures
        ({
            let s = spec_encode_tag(t);
            let b = enc_values_body(t.values);
            let bl: int = if flag {
                4
            } else {
                5
            };
            let p = 15 + bl + 14 + b.len() as int;
            spec_parse_members(s, "replace"@, 13) == Some(
                (TagView { replace: Some(flag), values: t.values }, p),
            )
        }),
{
    let s = spec_encode_tag(t);
    let b = enc_values_body(t.values);
    let vs = t.values;
    lemma_key_bytes();
    lemma_some_layout(t, flag);
    let vkey = "values"@;
    let rkey = "replace"@;
    let bl: int = if flag {
        4
    } else {
        5
    };
    let bend = 15 + bl;
    let b0 = bend + 14;
    let p = b0 + b.len() as int;
    assert forall|a: int, k: int|
        0 <= a < vs.len() && 0 <= k < vs[a].len() implies is_tag_char(#[trigger] vs[a][k]) by {}
    assert(spec_skip_ws(s, 13) == 13) by {
        assert(!is_ws(s[13]));
    }
    lemma_skip_ws_over(s, 14, 15);
    if flag {
        assert(spec_parse_bool(s, 15) == Some((true, bend)));
    } else {
        assert(spec_parse_bool(s, 15) == Some((false, bend)));
    }
    assert(spec_parse_colon_bool(s, 13) == Some((flag, bend)));
    assert(spec_skip_ws(s, bend) == bend) by {
        assert(!is_ws(s[bend]));
    }
    let m0 = bend + 4;
    assert(s[m0] == 0x22) by {
        assert(s.subrange(bend + 4, bend + 12)[0] == s[m0]);
    }
    lemma_skip_ws_over(s, bend + 1, m0);
    lemma_parse_enc_quoted(vkey, s, m0);
    assert(spec_parse_jstring(s, m0) == Some((vkey, m0 + 8int)));
    lemma_parse_colon_list_enc(vs, s, m0 + 8);
    assert(spec_parse_members(s, rkey, 13) == Some(
        (TagView { replace: Some(flag), values: vs }, p),
    ));
}

/// Round trip of a document with a `replace` member.
#[verifier::rlimit(80)]
proof fn lemma_round_trip_some(t: TagView, flag: bool)
    requires
        t.wf(),
        t.replace == Some(flag),
    ensures
        spec_parse_tag(spec_encode_tag(t)) == Some(t),
{
    let s = spec_encode_tag(t);
    let b = enc_values_body(t.values);
    let vs = t.values;
    lemma_key_bytes();
    lemma_some_layout(t, flag);
    lemma_members_some(t, flag);
    let rkey = "replace"@;
    let bl: int = if flag {
        4
    } else {
        5
    };
    let bend = 15 + bl;
    let b0 = bend + 14;
    let p = b0 + b.len() as int;
    assert(spec_skip_ws(s, 0) == 0) by {
        assert(!is_ws(s[0]));
    }
    assert(s[4] == 0x22) by {
        assert(s.subrange(4, 13)[0] == s[4]);
    }
    lemma_skip_ws_over(s, 1, 4);
    lemma_parse_enc_quoted(rkey, s, 4);
    assert(spec_parse_jstring(s, 4) == Some((rkey, 13int)));
    lemma_skip_ws_over(s, p, p + 1);
    assert(spec_skip_ws(s, p + 2) == s.len());
    assert(spec_parse_tag(s) == Some(TagView { replace: Some(flag), values: vs }));
    assert(TagView { replace: Some(flag), values: vs } =~= t);
}

/// The codec pair is a round trip: a well-formed document, encoded and then
/// decoded, comes back unchanged.
pub proof fn lemma_encode_decode_round_trip(t: TagView)
    requires
        t.wf(),
    ensures
        spec_parse_tag(spec_encode_tag(t)) == Some(t),
{
    match t.replace {
        None => lemma_round_trip_none(t),
        Some(flag) => lemma_round_trip_some(t, flag),
    }
}

} // verus!
