//! The colorscheme document tree: a closed union of the node kinds a parsed
//! YAML document can hold, the mathematical view of such a tree, and the
//! lookup and stringification rules that decide which configuration values
//! are substituted.

use vstd::prelude::*;

verus! {

/// One node of a loaded colorscheme document. Mirrors the shape of a parsed
/// YAML value: mappings keep their entries in document order, and keys may be
/// arbitrary nodes (only string keys ever match a path segment).
pub enum ColorValue {
    /// A mapping, as (key, value) pairs in document order.
    Mapping(Vec<(ColorValue, ColorValue)>),
    /// A sequence of nodes in document order.
    Sequence(Vec<ColorValue>),
    /// A string scalar.
    Str(String),
    /// A floating-point scalar, kept as its source text.
    Real(String),
    /// An integer scalar.
    Int(i64),
    /// A boolean scalar.
    Bool(bool),
    /// A reference to an anchor.
    Alias(usize),
    /// The null scalar.
    Null,
    /// A node the parser could not classify.
    Bad,
}

/// The mathematical view of a `ColorValue` tree.
pub enum ColorNode {
    Mapping(Seq<(ColorNode, ColorNode)>),
    Sequence(Seq<ColorNode>),
    Str(Seq<char>),
    Real(Seq<char>),
    Int(int),
    Bool(bool),
    Alias(int),
    Null,
    Bad,
}

impl ColorValue {
    /// The view of this tree: the same shape over `Seq` and `int`.
    pub open spec fn deep_view(self) -> ColorNode
        decreases self,
    {
        match self {
            ColorValue::Mapping(entries) => ColorNode::Mapping(
                Seq::new(
                    entries@.len(),
                    |i: int|
                        if 0 <= i < entries@.len() {
                            (entries@[i].0.deep_view(), entries@[i].1.deep_view())
                        } else {
                            (ColorNode::Null, ColorNode::Null)
                        },
                ),
            ),
            ColorValue::Sequence(items) => ColorNode::Sequence(
                Seq::new(
                    items@.len(),
                    |i: int|
                        if 0 <= i < items@.len() {
                            items@[i].deep_view()
                        } else {
                            ColorNode::Null
                        },
                ),
            ),
            ColorValue::Str(s) => ColorNode::Str(s@),
            ColorValue::Real(s) => ColorNode::Real(s@),
            ColorValue::Int(i) => ColorNode::Int(i as int),
            ColorValue::Bool(b) => ColorNode::Bool(b),
            ColorValue::Alias(a) => ColorNode::Alias(a as int),
            ColorValue::Null => ColorNode::Null,
            ColorValue::Bad => ColorNode::Bad,
        }
    }
}

/// The value of the first entry of `entries` whose key is the string `key`,
/// if any entry has one.
pub open spec fn spec_find_entry(entries: Seq<(ColorNode, ColorNode)>, key: Seq<char>) -> Option<
    ColorNode,
>
    decreases entries.len(),
{
    if entries.len() == 0 {
        None
    } else if entries[0].0 matches ColorNode::Str(s) && s == key {
        Some(entries[0].1)
    } else {
        spec_find_entry(entries.drop_first(), key)
    }
}

/// Descent of `path` into `node`: each segment descends into a mapping by key,
/// a missing key ends the lookup with no result, and a non-mapping node
/// absorbs the remaining segments and is itself the result.
pub open spec fn spec_lookup(node: ColorNode, path: Seq<Seq<char>>) -> Option<ColorNode>
    decreases path.len(),
{
    if path.len() == 0 {
        Some(node)
    } else {
        match node {
            ColorNode::Mapping(entries) => match spec_find_entry(entries, path[0]) {
                Some(child) => spec_lookup(child, path.drop_first()),
                None => None,
            },
            _ => Some(node),
        }
    }
}

/// The decimal digits of `n`, most significant first.
pub open spec fn spec_udec(n: nat) -> Seq<char>
    decreases n,
{
    if n < 10 {
        seq![spec_digit(n)]
    } else {
        spec_udec(n / 10).push(spec_digit(n % 10))
    }
}

/// The character for a single decimal digit.
pub open spec fn spec_digit(n: nat) -> char {
    if n == 0 {
        '0'
    } else if n == 1 {
        '1'
    } else if n == 2 {
        '2'
    } else if n == 3 {
        '3'
    } else if n == 4 {
        '4'
    } else if n == 5 {
        '5'
    } else if n == 6 {
        '6'
    } else if n == 7 {
        '7'
    } else if n == 8 {
        '8'
    } else {
        '9'
    }
}

/// The decimal text of `i`, with a leading minus sign when negative.
pub open spec fn spec_int_text(i: int) -> Seq<char> {
    if i < 0 {
        seq!['-'] + spec_udec((-i) as nat)
    } else {
        spec_udec(i as nat)
    }
}

/// The replacement text a node yields: a string scalar wrapped in single
/// quotes, an integer as decimal text, a boolean as `true`/`false`, and no
/// text at all for any other kind of node.
pub open spec fn spec_stringify(node: ColorNode) -> Option<Seq<char>> {
    match node {
        ColorNode::Str(s) => Some(seq!['\''] + s + seq!['\'']),
        ColorNode::Int(i) => Some(spec_int_text(i)),
        ColorNode::Bool(b) => Some(if b {
            "true"@
        } else {
            "false"@
        }),
        _ => None,
    }
}

/// Whether looking `path` up in `node` yields a node with a replacement text.
pub open spec fn spec_substitutable(node: ColorNode, path: Seq<Seq<char>>) -> bool {
    match spec_lookup(node, path) {
        Some(found) => spec_stringify(found) is Some,
        None => false,
    }
}

/// The view of a path of keys.
pub open spec fn path_view(path: Seq<String>) -> Seq<Seq<char>> {
    path.map_values(|s: String| s@)
}

/// The view of a mapping's entry list.
pub open spec fn entries_view(entries: Seq<(ColorValue, ColorValue)>) -> Seq<(ColorNode, ColorNode)> {
    Seq::new(
        entries.len(),
        |i: int|
            if 0 <= i < entries.len() {
                (entries[i].0.deep_view(), entries[i].1.deep_view())
            } else {
                (ColorNode::Null, ColorNode::Null)
            },
    )
}

/// Searches `entries` in order for the first entry whose key is the string
/// `key`, and hands its value back.
pub fn find_entry<'a>(entries: &'a Vec<(ColorValue, ColorValue)>, key: &String) -> (r: Option<
    &'a ColorValue,
>)
    ensures
        match spec_find_entry(entries_view(entries@), key@) {
            Some(found) => r matches Some(v) && v.deep_view() == found,
            None => r is None,
        },
{
    let ghost ev = entries_view(entries@);
    proof {
        assert(ev.skip(0) =~= ev);
    }
    let mut j: usize = 0;
    while j < entries.len()
        invariant
            j <= entries@.len(),
            ev == entries_view(entries@),
            spec_find_entry(ev, key@) == spec_find_entry(ev.skip(j as int), key@),
        decreases entries@.len() - j,
    {
        proof {
            assert(ev.skip(j as int)[0] == ev[j as int]);
            assert(ev.skip(j as int).drop_first() =~= ev.skip(j as int + 1));
        }
        if let ColorValue::Str(s) = &entries[j].0 {
            if s.eq(key) {
                return Some(&entries[j].1);
            }
        }
        j += 1;
    }
    proof {
        assert(ev.skip(entries@.len() as int) =~= Seq::<(ColorNode, ColorNode)>::empty());
    }
    None
}

/// Looks `path` up in `node`, descending one key at a time as `spec_lookup`
/// describes.
pub fn lookup<'a>(node: &'a ColorValue, path: &Vec<String>) -> (r: Option<&'a ColorValue>)
    ensures
        match spec_lookup(node.deep_view(), path_view(path@)) {
            Some(found) => r matches Some(v) && v.deep_view() == found,
            None => r is None,
        },
{
    let mut current: &ColorValue = node;
    let mut i: usize = 0;
    proof {
        assert(path_view(path@.skip(0)) =~= path_view(path@));
    }
    while i < path.len()
        invariant
            i <= path@.len(),
            spec_lookup(node.deep_view(), path_view(path@)) == spec_lookup(
                current.deep_view(),
                path_view(path@.skip(i as int)),
            ),
        decreases path@.len() - i,
    {
        proof {
            assert(path_view(path@.skip(i as int))[0] == path@[i as int]@);
            assert(path_view(path@.skip(i as int)).drop_first() =~= path_view(
                path@.skip(i as int + 1),
            ));
        }
        if let ColorValue::Mapping(entries) = current {
            proof {
                assert(current.deep_view()->Mapping_0 =~= entries_view(entries@));
            }
            match find_entry(entries, &path[i]) {
                Some(child) => {
                    current = child;
                },
                None => {
                    return None;
                },
            }
        }
        i += 1;
    }
    proof {
        assert(path_view(path@.skip(path@.len() as int)) =~= Seq::<Seq<char>>::empty());
    }
    Some(current)
}

/// The string a node holds, when it is a string node.
pub open spec fn node_as_str(n: ColorNode) -> Option<Seq<char>> {
    match n {
        ColorNode::Str(s) => Some(s),
        _ => None,
    }
}

/// The selector rule over a mapping's entries, with `dflt` the value of the
/// last `else` entry seen so far: an entry whose key is `key` ends the walk
/// with that entry's string value (or nothing when the value is no string),
/// an `else` entry replaces the fallback, a key that is no string at all
/// ends the walk with nothing, and an exhausted walk yields the fallback.
pub open spec fn spec_selector_entries(
    entries: Seq<(ColorNode, ColorNode)>,
    key: Seq<char>,
    dflt: Option<Seq<char>>,
) -> Option<Seq<char>>
    decreases entries.len(),
{
    if entries.len() == 0 {
        dflt
    } else {
        match entries[0].0 {
            ColorNode::Str(k) => if k == key {
                node_as_str(entries[0].1)
            } else if k == "else"@ {
                spec_selector_entries(entries.drop_first(), key, node_as_str(entries[0].1))
            } else {
                spec_selector_entries(entries.drop_first(), key, dflt)
            },
            _ => None,
        }
    }
}

/// What a selector mapping resolves `key` to: the entry named `key`, the
/// `else` entry as fallback, or nothing; a tree that is no mapping resolves
/// nothing.
pub open spec fn spec_selector(tree: ColorNode, key: Seq<char>) -> Option<Seq<char>> {
    match tree {
        ColorNode::Mapping(entries) => spec_selector_entries(entries, key, None),
        _ => None,
    }
}

/// The view of an optional borrowed string.
pub open spec fn opt_str_view(o: Option<&String>) -> Option<Seq<char>> {
    match o {
        Some(s) => Some(s@),
        None => None,
    }
}

/// Resolves `key` through a selector mapping, as `spec_selector` describes.
pub fn selector<'a>(tree: &'a ColorValue, key: &String) -> (r: Option<&'a String>)
    ensures
        match spec_selector(tree.deep_view(), key@) {
            Some(s) => r matches Some(v) && v@ == s,
            None => r is None,
        },
{
    let entries = match tree {
        ColorValue::Mapping(e) => e,
        _ => {
            return None;
        },
    };
    proof {
        assert(tree.deep_view()->Mapping_0 =~= entries_view(entries@));
    }
    let ghost ev = entries_view(entries@);
    let else_key: String = "else".to_owned();
    let mut dflt: Option<&String> = None;
    let mut j: usize = 0;
    proof {
        assert(ev.skip(0) =~= ev);
    }
    while j < entries.len()
        invariant
            j <= entries@.len(),
            ev == entries_view(entries@),
            tree.deep_view() == ColorNode::Mapping(ev),
            else_key@ == "else"@,
            spec_selector_entries(ev, key@, None) == spec_selector_entries(
                ev.skip(j as int),
                key@,
                opt_str_view(dflt),
            ),
        decreases entries@.len() - j,
    {
        proof {
            assert(ev.skip(j as int)[0] == ev[j as int]);
            assert(ev.skip(j as int).drop_first() =~= ev.skip(j as int + 1));
        }
        if let ColorValue::Str(k) = &entries[j].0 {
            if k.eq(key) {
                return match &entries[j].1 {
                    ColorValue::Str(s) => Some(s),
                    _ => None,
                };
            } else if k.eq(&else_key) {
                dflt = match &entries[j].1 {
                    ColorValue::Str(s) => Some(s),
                    _ => None,
                };
            }
        } else {
            return None;
        }
        j += 1;
    }
    proof {
        assert(ev.skip(entries@.len() as int) =~= Seq::<(ColorNode, ColorNode)>::empty());
    }
    dflt
}

/// The character for the decimal digit `n`.
fn digit_char(n: u64) -> (c: char)
    requires
        n < 10,
    ensures
        c == spec_digit(n as nat),
{
    if n == 0 {
        '0'
    } else if n == 1 {
        '1'
    } else if n == 2 {
        '2'
    } else if n == 3 {
        '3'
    } else if n == 4 {
        '4'
    } else if n == 5 {
        '5'
    } else if n == 6 {
        '6'
    } else if n == 7 {
        '7'
    } else if n == 8 {
        '8'
    } else {
        '9'
    }
}

/// The decimal digits of `n`, most significant first.
fn udec_chars(n: u64) -> (r: Vec<char>)
    ensures
        r@ == spec_udec(n as nat),
    decreases n,
{
    if n < 10 {
        let mut r: Vec<char> = Vec::new();
        r.push(digit_char(n));
        proof {
            assert(r@ =~= seq![spec_digit(n as nat)]);
        }
        r
    } else {
        let mut r = udec_chars(n / 10);
        r.push(digit_char(n % 10));
        r
    }
}

/// The decimal text of `i`, with a leading minus sign when negative.
fn int_chars(i: i64) -> (r: Vec<char>)
    ensures
        r@ == spec_int_text(i as int),
{
    if i >= 0 {
        udec_chars(i as u64)
    } else {
        let mag: u64 = if i == i64::MIN {
            9223372036854775808u64
        } else {
            (-i) as u64
        };
        let mut r: Vec<char> = Vec::new();
        r.push('-');
        let mut digits = udec_chars(mag);
        r.append(&mut digits);
        proof {
            assert(r@ =~= seq!['-'] + spec_udec(mag as nat));
        }
        r
    }
}

/// The characters of `s` wrapped in single quotes.
fn quoted_chars(s: &String) -> (r: Vec<char>)
    ensures
        r@ == seq!['\''] + s@ + seq!['\''],
{
    let mut r: Vec<char> = Vec::new();
    r.push('\'');
    proof {
        assert(r@ =~= seq!['\''] + s@.take(0));
    }
    let n = s.as_str().unicode_len();
    let mut i: usize = 0;
    while i < n
        invariant
            i <= n,
            n == s@.len(),
            r@ == seq!['\''] + s@.take(i as int),
        decreases n - i,
    {
        r.push(s.as_str().get_char(i));
        proof {
            assert(seq!['\''] + s@.take(i as int) + seq![s@[i as int]] =~= seq!['\''] + s@.take(
                i as int + 1,
            ));
        }
        i += 1;
    }
    r.push('\'');
    proof {
        assert(s@.take(n as int) =~= s@);
        assert(seq!['\''] + s@ + seq!['\''] =~= (seq!['\''] + s@).push('\''));
    }
    r
}

/// The replacement text `node` yields, as `spec_stringify` describes: a
/// quoted string, decimal text, `true`/`false`, or nothing for a mapping,
/// sequence, real, alias, null or bad node.
pub fn stringify(node: &ColorValue) -> (r: Option<String>)
    ensures
        match spec_stringify(node.deep_view()) {
            Some(text) => r matches Some(s) && s@ == text,
            None => r is None,
        },
{
    match stringify_chars(node) {
        Some(v) => Some(crate::text::string_from_chars(&v)),
        None => None,
    }
}

/// The replacement text `node` yields, as characters, exactly as
/// `spec_stringify` describes: a quoted string, decimal text, `true`/`false`,
/// or nothing for a mapping, sequence, real, alias, null or bad node.
pub fn stringify_chars(node: &ColorValue) -> (r: Option<Vec<char>>)
    ensures
        match spec_stringify(node.deep_view()) {
            Some(text) => r matches Some(v) && v@ == text,
            None => r is None,
        },
{
    match node {
        ColorValue::Str(s) => Some(quoted_chars(s)),
        ColorValue::Int(i) => Some(int_chars(*i)),
        ColorValue::Bool(b) => {
            let mut r: Vec<char> = Vec::new();
            if *b {
                r.push('t');
                r.push('r');
                r.push('u');
                r.push('e');
                proof {
                    reveal_strlit("true");
                    assert(r@ =~= "true"@);
                }
            } else {
                r.push('f');
                r.push('a');
                r.push('l');
                r.push('s');
                r.push('e');
                proof {
                    reveal_strlit("false");
                    assert(r@ =~= "false"@);
                }
            }
            Some(r)
        },
        _ => None,
    }
}

} // verus!
