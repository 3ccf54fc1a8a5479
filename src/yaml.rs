//! A YAML value held as plain data, and the reading of a YAML text into it.

use vstd::prelude::*;
use yaml_rust::{Yaml, YamlLoader};
use crate::text::chars_of;

verus! {

broadcast use vstd::std_specs::vec::axiom_vec_decreases_to_view, vstd::seq::axiom_seq_index_decreases;

/// A YAML value.
pub enum YamlValue {
    Real(String),
    Integer(i64),
    Text(String),
    Boolean(bool),
    Array(Vec<YamlValue>),
    Hash(Vec<(YamlValue, YamlValue)>),
    Alias(usize),
    Null,
    BadValue,
}

/// A YAML value as plain sequences.
pub enum YamlView {
    Real(Seq<char>),
    Integer(i64),
    Text(Seq<char>),
    Boolean(bool),
    Array(Seq<YamlView>),
    Hash(Seq<(YamlView, YamlView)>),
    Alias(usize),
    Null,
    BadValue,
}

impl YamlValue {
    pub open spec fn view(&self) -> YamlView
        decreases self,
    {
        match self {
            YamlValue::Real(s) => YamlView::Real(s@),
            YamlValue::Integer(i) => YamlView::Integer(*i),
            YamlValue::Text(s) => YamlView::Text(s@),
            YamlValue::Boolean(b) => YamlView::Boolean(*b),
            YamlValue::Array(v) => YamlView::Array(
                Seq::new(v@.len(), |i: int| if 0 <= i < v@.len() { v@[i].view() } else { YamlView::Null }),
            ),
            YamlValue::Hash(v) => YamlView::Hash(
                Seq::new(
                    v@.len(),
                    |i: int|
                        if 0 <= i < v@.len() {
                            (v@[i].0.view(), v@[i].1.view())
                        } else {
                            (YamlView::Null, YamlView::Null)
                        },
                ),
            ),
            YamlValue::Alias(a) => YamlView::Alias(*a),
            YamlValue::Null => YamlView::Null,
            YamlValue::BadValue => YamlView::BadValue,
        }
    }
}

#[verifier::external_type_specification]
#[verifier::external_body]
pub struct ExYaml(Yaml);

/// The most characters that may open a line before its content: spaces and the
/// block indicators `-`, `?` and `:`. Block nesting grows only with these, so the
/// bound also bounds how deep the reader recurses; flow nesting yaml-rust caps itself.
pub const MAX_LEAD: usize = 256;

/// A character that may open a line without starting its content.
pub open spec fn is_lead(c: char) -> bool {
    c == ' ' || c == '-' || c == '?' || c == ':'
}

/// After reading `t`: whether the current line has shown only leading characters so
/// far, and how many.
pub open spec fn lead_state(t: Seq<char>) -> (bool, int)
    decreases t.len(),
{
    if t.len() == 0 {
        (true, 0)
    } else {
        let st = lead_state(t.drop_last());
        let c = t.last();
        if c == '\n' || c == '\r' {
            (true, 0)
        } else if st.0 && is_lead(c) {
            (true, st.1 + 1)
        } else {
            (false, 0)
        }
    }
}

/// No line of `t`, with `\n` or `\r` ending a line, opens with more than
/// `MAX_LEAD` leading characters.
pub open spec fn nesting_fits(t: Seq<char>) -> bool {
    forall|k: int| 0 <= k <= t.len() ==> #[trigger] lead_state(t.subrange(0, k)).1 <= MAX_LEAD
}

/// The documents of a YAML text, or nothing when it is not YAML.
pub uninterp spec fn yaml_docs_of(text: Seq<char>) -> Option<Seq<YamlView>>;

pub open spec fn views_of(d: Seq<YamlValue>) -> Seq<YamlView> {
    d.map_values(|v: YamlValue| v.view())
}

/// Relies on yaml_rust's `YamlLoader::load_from_str`: the documents of a YAML text, which
/// depend on the text alone, each turned into a `YamlValue` variant by variant; `None`
/// for its scanner's error. The parser recurses once per level of nesting, so the lines
/// bounded in how they open.
#[verifier::external_body]
fn yaml_load(text: &str) -> (r: Option<Vec<YamlValue>>)
    requires
        nesting_fits(text@),
    ensures
        match r {
            Some(d) => yaml_docs_of(text@) == Some(views_of(d@)),
            None => yaml_docs_of(text@) is None,
        },
{
    YamlLoader::load_from_str(text).ok().map(|d| d.iter().map(value_of).collect())
}

/// The same value as a `YamlValue`, variant for variant; used by `yaml_load` alone.
#[verifier::external_body]
fn value_of(y: &Yaml) -> YamlValue {
    match y {
        Yaml::Real(s) => YamlValue::Real(s.clone()),
        Yaml::Integer(i) => YamlValue::Integer(*i),
        Yaml::String(s) => YamlValue::Text(s.clone()),
        Yaml::Boolean(b) => YamlValue::Boolean(*b),
        Yaml::Array(v) => YamlValue::Array(v.iter().map(value_of).collect()),
        Yaml::Hash(h) => YamlValue::Hash(h.iter().map(|(k, v)| (value_of(k), value_of(v))).collect()),
        Yaml::Alias(a) => YamlValue::Alias(*a),
        Yaml::Null => YamlValue::Null,
        Yaml::BadValue => YamlValue::BadValue,
    }
}

/// The value under the first pair whose key is the string `key`.
pub open spec fn pair_value(p: Seq<(YamlView, YamlView)>, key: Seq<char>) -> YamlView
    decreases p.len(),
{
    if p.len() == 0 {
        YamlView::BadValue
    } else if p[0].0 == YamlView::Text(key) {
        p[0].1
    } else {
        pair_value(p.drop_first(), key)
    }
}

/// The value under `key` of a mapping; a bad value for a missing key or a non-mapping.
pub open spec fn field(y: YamlView, key: Seq<char>) -> YamlView {
    match y {
        YamlView::Hash(p) => pair_value(p, key),
        _ => YamlView::BadValue,
    }
}

pub open spec fn text_of(y: YamlView) -> Option<Seq<char>> {
    match y {
        YamlView::Text(s) => Some(s),
        _ => None,
    }
}

pub open spec fn int_of(y: YamlView) -> Option<i64> {
    match y {
        YamlView::Integer(i) => Some(i),
        _ => None,
    }
}

/// The documents of `text`, when no line opens with too many leading characters.
pub fn load_docs(text: &str) -> (r: Option<Option<Vec<YamlValue>>>)
    ensures
        match r {
            None => !nesting_fits(text@),
            Some(None) => nesting_fits(text@) && yaml_docs_of(text@) is None,
            Some(Some(d)) => nesting_fits(text@) && yaml_docs_of(text@) == Some(views_of(d@)),
        },
{
    let cs = chars_of(text);
    let mut lead = true;
    let mut run: usize = 0;
    let mut i: usize = 0;
    proof {
        assert(cs@.subrange(0, 0) =~= Seq::<char>::empty());
    }
    while i < cs.len()
        invariant
            cs@ == text@,
            i <= cs@.len(),
            (lead, run as int) == lead_state(cs@.subrange(0, i as int)),
            forall|k: int| 0 <= k <= i ==> #[trigger] lead_state(cs@.subrange(0, k)).1 <= MAX_LEAD,
        decreases cs.len() - i,
    {
        let c = cs[i];
        proof {
            assert(cs@.subrange(0, i + 1).drop_last() =~= cs@.subrange(0, i as int));
        }
        if c == '\n' || c == '\r' {
            lead = true;
            run = 0;
        } else if lead && (c == ' ' || c == '-' || c == '?' || c == ':') {
            if run >= MAX_LEAD {
                proof {
                    assert(lead_state(cs@.subrange(0, i + 1)).1 > MAX_LEAD);
                }
                return None;
            }
            run = run + 1;
        } else {
            lead = false;
            run = 0;
        }
        i = i + 1;
    }
    assert(cs@.subrange(0, cs@.len() as int) =~= cs@);
    Some(yaml_load(text))
}

/// The value under `key` of a mapping, `None` standing for a bad value.
pub fn get_field<'a>(y: &'a YamlValue, key: &String) -> (r: Option<&'a YamlValue>)
    ensures
        match r {
            Some(v) => v.view() == field(y.view(), key@),
            None => field(y.view(), key@) == YamlView::BadValue,
        },
{
    match y {
        YamlValue::Hash(pairs) => {
            let ghost p = match y.view() {
                YamlView::Hash(p) => p,
                _ => Seq::empty(),
            };
            let mut i: usize = 0;
            proof {
                assert(p.subrange(0, p.len() as int) =~= p);
            }
            while i < pairs.len()
                invariant
                    y.view() == YamlView::Hash(p),
                    *y == YamlValue::Hash(*pairs),
                    p.len() == pairs@.len(),
                    i <= pairs@.len(),
                    pair_value(p, key@) == pair_value(p.subrange(i as int, p.len() as int), key@),
                decreases pairs.len() - i,
            {
                assert(p[i as int] == (pairs@[i as int].0.view(), pairs@[i as int].1.view()));
                let ghost rest = p.subrange(i as int, p.len() as int);
                assert(rest[0] == p[i as int]);
                assert(rest.drop_first() =~= p.subrange(i + 1, p.len() as int));
                let hit = match &pairs[i].0 {
                    YamlValue::Text(s) => *s == *key,
                    _ => false,
                };
                if hit {
                    return Some(&pairs[i].1);
                }
                i = i + 1;
            }
            None
        },
        _ => None,
    }
}

/// The string under `key` of a mapping, if it is a string.
pub fn text_field(y: &YamlValue, key: &String) -> (r: Option<String>)
    ensures
        match r {
            Some(s) => text_of(field(y.view(), key@)) == Some(s@),
            None => text_of(field(y.view(), key@)) is None,
        },
{
    match get_field(y, key) {
        Some(YamlValue::Text(s)) => Some(s.clone()),
        _ => None,
    }
}

/// The integer under `key` of a mapping, if it is an integer.
pub fn int_field(y: &YamlValue, key: &String) -> (r: Option<i64>)
    ensures
        r == int_of(field(y.view(), key@)),
{
    match get_field(y, key) {
        Some(YamlValue::Integer(i)) => Some(*i),
        _ => None,
    }
}

} // verus!
