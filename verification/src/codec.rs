//! The persisted form of the configuration: one line for the base folder,
//! one for the managed names,
//!
//! ```text
//! world_folder = "worlds"
//! managed_worlds = ["a", "b"]
//! ```
//!
//! with `"`, `\` and newline escaped inside the quoted strings. Encoding
//! and parsing are inverse to one another; a text that does not hold a
//! record of this shape — duplicate names included, which the record
//! forbids — is corrupt.

use vstd::prelude::*;
use crate::config::{ConfigModel, MyPlugin, distinct_names, name_models};

verus! {

/// The persisted text does not hold a configuration record.
#[derive(Debug)]
pub enum ConfigError {
    Corrupt,
}

impl ConfigError {
    /// A short account of the failure.
    pub fn describe(&self) -> (r: String)
        ensures
            r@ == "config file is corrupt"@,
    {
        "config file is corrupt".to_owned()
    }
}

/// Relies on String::push: appends the given character to the end of the
/// string.
pub assume_specification[ String::push ](s: &mut String, c: char)
    ensures
        final(s)@ == old(s)@.push(c),
;

/// The escaped form of one character inside a quoted string.
pub open spec fn escape_char(c: char) -> Seq<char> {
    if c == '"' {
        seq!['\\', '"']
    } else if c == '\\' {
        seq!['\\', '\\']
    } else if c == '\n' {
        seq!['\\', 'n']
    } else {
        seq![c]
    }
}

/// The escaped form of a string's characters.
pub open spec fn escape(s: Seq<char>) -> Seq<char>
    decreases s.len(),
{
    if s.len() == 0 {
        Seq::empty()
    } else {
        escape_char(s[0]) + escape(s.drop_first())
    }
}

/// The character an escape introducer is followed by, unescaped.
pub open spec fn unescape_char(e: char) -> Option<char> {
    if e == '"' {
        Some('"')
    } else if e == '\\' {
        Some('\\')
    } else if e == 'n' {
        Some('\n')
    } else {
        None
    }
}

/// One quoted, escaped name.
pub open spec fn encode_item(name: Seq<char>) -> Seq<char> {
    seq!['"'] + escape(name) + seq!['"']
}

/// The quoted names, separated by a comma and a space.
pub open spec fn encode_list(names: Seq<Seq<char>>) -> Seq<char>
    decreases names.len(),
{
    if names.len() == 0 {
        Seq::empty()
    } else if names.len() == 1 {
        encode_item(names[0])
    } else {
        encode_item(names[0]) + seq![',', ' '] + encode_list(names.drop_first())
    }
}

/// The full persisted text of a configuration record.
pub open spec fn spec_encode(c: ConfigModel) -> Seq<char> {
    "world_folder = \""@ + escape(c.world_folder) + "\"\nmanaged_worlds = ["@ + encode_list(
        c.managed_worlds,
    ) + "]\n"@
}

/// The content of a quoted string starting at `i` (just after the opening
/// quote), and the position just after the closing quote.
pub open spec fn parse_string_at(s: Seq<char>, i: int) -> Option<(Seq<char>, int)>
    decreases s.len() - i,
{
    if i < 0 || i >= s.len() {
        None
    } else if s[i] == '"' {
        Some((Seq::empty(), i + 1))
    } else if s[i] == '\\' {
        if i + 1 < s.len() {
            match unescape_char(s[i + 1]) {
                Some(c) => match parse_string_at(s, i + 2) {
                    Some(t) => Some((seq![c] + t.0, t.1)),
                    None => None,
                },
                None => None,
            }
        } else {
            None
        }
    } else {
        match parse_string_at(s, i + 1) {
            Some(t) => Some((seq![s[i]] + t.0, t.1)),
            None => None,
        }
    }
}

/// One or more quoted names starting at `i`, up to and including the
/// closing bracket; the names and the position just after the bracket.
pub open spec fn parse_items_at(s: Seq<char>, i: int) -> Option<(Seq<Seq<char>>, int)>
    decreases s.len() - i,
{
    if 0 <= i < s.len() && s[i] == '"' {
        match parse_string_at(s, i + 1) {
            Some(t) => {
                let name = t.0;
                let j = t.1;
                if j < s.len() && s[j] == ']' {
                    Some((seq![name], j + 1))
                } else if i < j && j + 1 < s.len() && s[j] == ',' && s[j + 1] == ' ' {
                    match parse_items_at(s, j + 2) {
                        Some(u) => Some((seq![name] + u.0, u.1)),
                        None => None,
                    }
                } else {
                    None
                }
            },
            None => None,
        }
    } else {
        None
    }
}

/// A possibly empty bracketed list's names, starting at `i` just after the
/// opening bracket.
pub open spec fn parse_list_at(s: Seq<char>, i: int) -> Option<(Seq<Seq<char>>, int)> {
    if 0 <= i < s.len() && s[i] == ']' {
        Some((Seq::<Seq<char>>::empty(), i + 1))
    } else {
        parse_items_at(s, i)
    }
}

/// Whether `lit` stands in `s` at position `i`.
pub open spec fn has_lit_at(s: Seq<char>, i: int, lit: Seq<char>) -> bool {
    0 <= i && i + lit.len() <= s.len() && s.subrange(i, i + lit.len()) == lit
}

/// The configuration a text holds, if it is of the persisted shape and its
/// managed names are distinct.
pub open spec fn spec_parse(s: Seq<char>) -> Option<ConfigModel> {
    let l1 = "world_folder = \""@;
    let l2 = "\nmanaged_worlds = ["@;
    if has_lit_at(s, 0, l1) {
        match parse_string_at(s, l1.len() as int) {
            Some(t) => {
                let folder = t.0;
                let j = t.1;
                if has_lit_at(s, j, l2) {
                    match parse_list_at(s, j + l2.len()) {
                        Some(u) => {
                            let names = u.0;
                            let k = u.1;
                            if 0 <= k < s.len() && k + 1 == s.len() && s[k] == '\n'
                                && distinct_names(names) {
                                Some(ConfigModel { world_folder: folder, managed_worlds: names })
                            } else {
                                None
                            }
                        },
                        None => None,
                    }
                } else {
                    None
                }
            },
            None => None,
        }
    } else {
        None
    }
}

/// Escaping one more character appends its escaped form.
pub proof fn lemma_escape_push(s: Seq<char>, c: char)
    ensures
        escape(s.push(c)) == escape(s) + escape_char(c),
    decreases s.len(),
{
    if s.len() == 0 {
        assert(s.push(c)[0] == c);
        assert(s.push(c).drop_first() =~= Seq::<char>::empty());
        assert(escape(s.push(c)) == escape_char(c) + escape(s.push(c).drop_first()));
        assert(escape(Seq::<char>::empty()) == Seq::<char>::empty());
        assert(escape_char(c) + Seq::<char>::empty() =~= escape_char(c));
        assert(s =~= Seq::<char>::empty());
        assert(escape(s) + escape_char(c) =~= escape_char(c));
    } else {
        assert(s.push(c)[0] == s[0]);
        assert(s.push(c).drop_first() =~= s.drop_first().push(c));
        lemma_escape_push(s.drop_first(), c);
        assert(escape(s.push(c)) == escape_char(s[0]) + (escape(s.drop_first()) + escape_char(c)));
        assert(escape_char(s[0]) + (escape(s.drop_first()) + escape_char(c)) =~= (escape_char(s[0])
            + escape(s.drop_first())) + escape_char(c));
    }
}

/// One more name at the end of the list: a separator and the quoted name,
/// unless the list was empty.
pub proof fn lemma_encode_list_snoc(names: Seq<Seq<char>>, x: Seq<char>)
    ensures
        encode_list(names.push(x)) == (if names.len() == 0 {
            encode_item(x)
        } else {
            encode_list(names) + seq![',', ' '] + encode_item(x)
        }),
    decreases names.len(),
{
    if names.len() == 0 {
        assert(names.push(x)[0] == x);
    } else {
        assert(names.push(x)[0] == names[0]);
        assert(names.push(x).drop_first() =~= names.drop_first().push(x));
        lemma_encode_list_snoc(names.drop_first(), x);
        if names.len() == 1 {
            assert(encode_list(names.push(x)) == encode_item(names[0]) + seq![',', ' ']
                + encode_item(x));
            assert(encode_list(names) == encode_item(names[0]));
        } else {
            assert(encode_list(names.push(x)) == encode_item(names[0]) + seq![',', ' '] + (
            encode_list(names.drop_first()) + seq![',', ' '] + encode_item(x)));
            assert(encode_item(names[0]) + seq![',', ' '] + (encode_list(names.drop_first())
                + seq![',', ' '] + encode_item(x)) =~= (encode_item(names[0]) + seq![',', ' ']
                + encode_list(names.drop_first())) + seq![',', ' '] + encode_item(x));
        }
    }
}

/// The characters of a text, in order.
fn str_to_chars(s: &str) -> (r: Vec<char>)
    ensures
        r@ == s@,
{
    let n = s.unicode_len();
    let mut r: Vec<char> = Vec::new();
    let mut i: usize = 0;
    proof {
        assert(r@ =~= s@.subrange(0, 0));
    }
    while i < n
        invariant
            i <= n,
            n == s@.len(),
            r@ == s@.subrange(0, i as int),
        decreases n - i,
    {
        let c = s.get_char(i);
        r.push(c);
        proof {
            assert(s@.subrange(0, i + 1) =~= s@.subrange(0, i as int).push(s@[i as int]));
        }
        i += 1;
    }
    proof {
        assert(s@.subrange(0, n as int) =~= s@);
    }
    r
}

/// Appends the escaped form of `s` to `out`.
fn append_escaped(out: &mut String, s: &str)
    ensures
        final(out)@ == old(out)@ + escape(s@),
{
    let n = s.unicode_len();
    let mut i: usize = 0;
    proof {
        assert(escape(s@.subrange(0, 0)) =~= Seq::<char>::empty());
        assert(old(out)@ + escape(s@.subrange(0, 0)) =~= old(out)@);
    }
    while i < n
        invariant
            i <= n,
            n == s@.len(),
            out@ == old(out)@ + escape(s@.subrange(0, i as int)),
        decreases n - i,
    {
        let c = s.get_char(i);
        proof {
            assert(s@.subrange(0, i + 1) =~= s@.subrange(0, i as int).push(c));
            lemma_escape_push(s@.subrange(0, i as int), c);
        }
        let ghost prev = out@;
        if c == '"' {
            out.append("\\\"");
            proof {
                reveal_strlit("\\\"");
                assert("\\\""@ =~= escape_char(c));
            }
        } else if c == '\\' {
            out.append("\\\\");
            proof {
                reveal_strlit("\\\\");
                assert("\\\\"@ =~= escape_char(c));
            }
        } else if c == '\n' {
            out.append("\\n");
            proof {
                reveal_strlit("\\n");
                assert("\\n"@ =~= escape_char(c));
            }
        } else {
            out.push(c);
            proof {
                assert(out@ =~= prev + escape_char(c));
            }
        }
        proof {
            assert(out@ == prev + escape_char(c));
            assert((old(out)@ + escape(s@.subrange(0, i as int))) + escape_char(c) =~= old(out)@
                + (escape(s@.subrange(0, i as int)) + escape_char(c)));
        }
        i += 1;
    }
    proof {
        assert(s@.subrange(0, n as int) =~= s@);
    }
}

/// A suffix known to be `a + b` holds `a` at its start and `b` right
/// after it.
pub proof fn lemma_lit_here(s: Seq<char>, i: int, a: Seq<char>, b: Seq<char>)
    requires
        0 <= i <= s.len(),
        s.subrange(i, s.len() as int) == a + b,
    ensures
        has_lit_at(s, i, a),
        i + a.len() <= s.len(),
        s.subrange(i + a.len(), s.len() as int) == b,
{
    assert(s.subrange(i, s.len() as int).len() == a.len() + b.len());
    assert forall|t: int| 0 <= t < a.len() implies s.subrange(i, i + a.len())[t] == a[t] by {
        assert(s.subrange(i, s.len() as int)[t] == (a + b)[t]);
        assert(s.subrange(i, i + a.len())[t] == s[i + t]);
        assert(s.subrange(i, s.len() as int)[t] == s[i + t]);
    }
    assert(s.subrange(i, i + a.len()) =~= a);
    assert forall|t: int|
        0 <= t < b.len() implies s.subrange(i + a.len(), s.len() as int)[t] == b[t] by {
        assert(s.subrange(i, s.len() as int)[a.len() + t] == (a + b)[a.len() + t]);
        assert(s.subrange(i + a.len(), s.len() as int)[t] == s[i + a.len() + t]);
        assert(s.subrange(i, s.len() as int)[a.len() + t] == s[i + a.len() + t]);
    }
    assert(s.subrange(i + a.len(), s.len() as int) =~= b);
}

/// Parsing an escaped string followed by a closing quote gives the
/// string back and stops just after the quote.
pub proof fn lemma_parse_escaped(s: Seq<char>, i: int, x: Seq<char>, rest: Seq<char>)
    requires
        0 <= i <= s.len(),
        s.subrange(i, s.len() as int) == escape(x) + seq!['"'] + rest,
    ensures
        parse_string_at(s, i) == Some((x, i + escape(x).len() + 1)),
    decreases x.len(),
{
    let suf = s.subrange(i, s.len() as int);
    assert(suf.len() == escape(x).len() + 1 + rest.len());
    if x.len() == 0 {
        assert(escape(x) == Seq::<char>::empty());
        assert(suf[0] == (escape(x) + seq!['"'] + rest)[0]);
        assert(suf[0] == '"');
        assert(s[i] == suf[0]);
        assert(x =~= Seq::<char>::empty());
    } else {
        let c = x[0];
        let x1 = x.drop_first();
        assert(escape(x) == escape_char(c) + escape(x1));
        let tail = escape(x1) + seq!['"'] + rest;
        assert(suf =~= escape_char(c) + tail);
        lemma_lit_here(s, i, escape_char(c), tail);
        if c == '"' || c == '\\' || c == '\n' {
            let e: char = if c == '"' {
                '"'
            } else if c == '\\' {
                '\\'
            } else {
                'n'
            };
            assert(escape_char(c) =~= seq!['\\', e]);
            assert(s.subrange(i, i + 2) == seq!['\\', e]);
            assert(s[i] == s.subrange(i, i + 2)[0]);
            assert(s[i + 1] == s.subrange(i, i + 2)[1]);
            assert(s[i] == '\\');
            assert(s[i + 1] == e);
            assert(unescape_char(e) == Some(c));
            lemma_parse_escaped(s, i + 2, x1, rest);
            assert(seq![c] + x1 =~= x);
        } else {
            assert(escape_char(c) =~= seq![c]);
            assert(s.subrange(i, i + 1) == seq![c]);
            assert(s[i] == s.subrange(i, i + 1)[0]);
            assert(s[i] == c);
            lemma_parse_escaped(s, i + 1, x1, rest);
            assert(seq![c] + x1 =~= x);
        }
    }
}

/// Parsing an encoded, non-empty name list followed by the closing
/// bracket gives the names back and stops just after the bracket.
pub proof fn lemma_parse_items(s: Seq<char>, i: int, names: Seq<Seq<char>>, rest: Seq<char>)
    requires
        0 <= i <= s.len(),
        names.len() > 0,
        s.subrange(i, s.len() as int) == encode_list(names) + seq![']'] + rest,
    ensures
        parse_items_at(s, i) == Some((names, i + encode_list(names).len() + 1)),
    decreases names.len(),
{
    let suf = s.subrange(i, s.len() as int);
    let x = names[0];
    if names.len() == 1 {
        assert(encode_list(names) == encode_item(x));
        let after = seq![']'] + rest;
        assert(suf =~= seq!['"'] + (escape(x) + seq!['"'] + after));
        lemma_lit_here(s, i, seq!['"'], escape(x) + seq!['"'] + after);
        assert(s.subrange(i, i + 1) == seq!['"']);
        assert(s[i] == s.subrange(i, i + 1)[0]);
        assert(s[i] == '"');
        lemma_parse_escaped(s, i + 1, x, after);
        let j = i + 1 + escape(x).len() + 1;
        assert(s.subrange(i + 1, s.len() as int) == escape(x) + seq!['"'] + after);
        lemma_lit_here(s, i + 1, escape(x) + seq!['"'], after);
        assert(s.subrange(j, s.len() as int) == after);
        assert(s[j] == s.subrange(j, s.len() as int)[0]);
        assert(s[j] == ']');
        assert(seq![x] =~= names);
        assert(j + 1 == i + encode_list(names).len() + 1);
    } else {
        let names1 = names.drop_first();
        assert(encode_list(names) == encode_item(x) + seq![',', ' '] + encode_list(names1));
        let after = seq![',', ' '] + encode_list(names1) + seq![']'] + rest;
        assert(suf =~= seq!['"'] + (escape(x) + seq!['"'] + after));
        lemma_lit_here(s, i, seq!['"'], escape(x) + seq!['"'] + after);
        assert(s.subrange(i, i + 1) == seq!['"']);
        assert(s[i] == s.subrange(i, i + 1)[0]);
        assert(s[i] == '"');
        lemma_parse_escaped(s, i + 1, x, after);
        let j = i + 1 + escape(x).len() + 1;
        lemma_lit_here(s, i + 1, escape(x) + seq!['"'], after);
        assert(s.subrange(j, s.len() as int) == after);
        assert(after =~= seq![',', ' '] + (encode_list(names1) + seq![']'] + rest));
        lemma_lit_here(s, j, seq![',', ' '], encode_list(names1) + seq![']'] + rest);
        assert(s.subrange(j, j + 2) == seq![',', ' ']);
        assert(s[j] == s.subrange(j, j + 2)[0]);
        assert(s[j + 1] == s.subrange(j, j + 2)[1]);
        assert(s[j] == ',');
        assert(s[j + 1] == ' ');
        lemma_parse_items(s, j + 2, names1, rest);
        assert(seq![x] + names1 =~= names);
        assert(encode_list(names).len() == encode_item(x).len() + 2 + encode_list(names1).len());
    }
}

/// Law (round-trip persistence): a persisted configuration parses back
/// to the configuration it was made from.
pub proof fn lemma_encode_parse_round_trip(c: ConfigModel)
    requires
        distinct_names(c.managed_worlds),
    ensures
        spec_parse(spec_encode(c)) == Some(c),
{
    let l1 = "world_folder = \""@;
    let l2m = "\"\nmanaged_worlds = ["@;
    let l2 = "\nmanaged_worlds = ["@;
    let l3 = "]\n"@;
    let enc = encode_list(c.managed_worlds);
    let s = spec_encode(c);
    reveal_strlit("world_folder = \"");
    reveal_strlit("\"\nmanaged_worlds = [");
    reveal_strlit("\nmanaged_worlds = [");
    reveal_strlit("]\n");
    assert(l2m =~= seq!['"'] + l2);
    assert(l3 =~= seq![']'] + seq!['\n']);
    assert(s.subrange(0, s.len() as int) =~= s);
    let r1 = escape(c.world_folder) + seq!['"'] + (l2 + (enc + seq![']'] + seq!['\n']));
    assert(s =~= l1 + r1);
    lemma_lit_here(s, 0, l1, r1);
    assert(has_lit_at(s, 0, l1));
    lemma_parse_escaped(s, l1.len() as int, c.world_folder, l2 + (enc + seq![']'] + seq!['\n']));
    let j = l1.len() + escape(c.world_folder).len() + 1;
    assert(r1 =~= (escape(c.world_folder) + seq!['"']) + (l2 + (enc + seq![']'] + seq!['\n'])));
    lemma_lit_here(
        s,
        l1.len() as int,
        escape(c.world_folder) + seq!['"'],
        l2 + (enc + seq![']'] + seq!['\n']),
    );
    lemma_lit_here(s, j as int, l2, enc + seq![']'] + seq!['\n']);
    assert(has_lit_at(s, j as int, l2));
    let p = j + l2.len();
    assert(s.subrange(p as int, s.len() as int) == enc + seq![']'] + seq!['\n']);
    if c.managed_worlds.len() == 0 {
        assert(enc == Seq::<char>::empty());
        assert(enc + seq![']'] + seq!['\n'] =~= seq![']'] + seq!['\n']);
        lemma_lit_here(s, p as int, seq![']'], seq!['\n']);
        assert(s.subrange(p as int, p as int + 1) == seq![']']);
        assert(s[p as int] == s.subrange(p as int, p as int + 1)[0]);
        assert(s[p as int] == ']');
        assert(parse_list_at(s, p as int) == Some((Seq::<Seq<char>>::empty(), p as int + 1)));
        let k = p + 1;
        assert(s.subrange(k as int, s.len() as int) == seq!['\n']);
        assert(s[k as int] == s.subrange(k as int, s.len() as int)[0]);
        assert(s[k as int] == '\n');
        assert(k + 1 == s.len());
        assert(spec_parse(s) == Some(
            ConfigModel {
                world_folder: c.world_folder,
                managed_worlds: Seq::<Seq<char>>::empty(),
            },
        ));
        assert((ConfigModel {
            world_folder: c.world_folder,
            managed_worlds: Seq::<Seq<char>>::empty(),
        }) =~= c);
    } else {
        lemma_parse_items(s, p as int, c.managed_worlds, seq!['\n']);
        assert(enc.len() > 0);
        assert(s[p as int] == s.subrange(p as int, s.len() as int)[0]);
        assert(encode_list(c.managed_worlds)[0] == encode_item(c.managed_worlds[0])[0]);
        assert(encode_item(c.managed_worlds[0])[0] == '"');
        assert(s[p as int] == '"');
        assert(parse_list_at(s, p as int) == parse_items_at(s, p as int));
        let k = p + enc.len() + 1;
        assert(enc + seq![']'] + seq!['\n'] =~= (enc + seq![']']) + seq!['\n']);
        lemma_lit_here(s, p as int, enc + seq![']'], seq!['\n']);
        assert(s.subrange(k as int, s.len() as int) == seq!['\n']);
        assert(s[k as int] == s.subrange(k as int, s.len() as int)[0]);
        assert(s[k as int] == '\n');
        assert(k + 1 == s.len());
        assert(spec_parse(s) == Some(
            ConfigModel { world_folder: c.world_folder, managed_worlds: c.managed_worlds },
        ));
        assert((ConfigModel { world_folder: c.world_folder, managed_worlds: c.managed_worlds })
            =~= c);
    }
}

/// Whether `lit` stands in `v` at position `i`.
fn has_lit_exec(v: &Vec<char>, i: usize, lit: &str) -> (r: bool)
    ensures
        r == has_lit_at(v@, i as int, lit@),
{
    let n = lit.unicode_len();
    let m = v.len();
    if i > m || n > m - i {
        return false;
    }
    let mut k: usize = 0;
    while k < n
        invariant
            k <= n,
            n == lit@.len(),
            i + n <= m,
            m == v@.len(),
            forall|t: int| 0 <= t < k ==> v@[i + t] == lit@[t],
        decreases n - k,
    {
        if v[i + k] != lit.get_char(k) {
            proof {
                assert(v@.subrange(i as int, i + n)[k as int] == v@[i + k]);
            }
            return false;
        }
        k += 1;
    }
    proof {
        assert(v@.subrange(i as int, i + n) =~= lit@);
    }
    true
}

/// The quoted string's content starting at `i`, and the position just
/// after its closing quote.
fn parse_string_exec(v: &Vec<char>, i: usize) -> (r: Option<(String, usize)>)
    ensures
        match r {
            Some(t) => {
                &&& parse_string_at(v@, i as int) == Some((t.0@, t.1 as int))
                &&& i < t.1 <= v@.len()
            },
            None => parse_string_at(v@, i as int) is None,
        },
    decreases v@.len() - i,
{
    if i >= v.len() {
        return None;
    }
    let c = v[i];
    if c == '"' {
        let empty = String::new();
        proof {
            assert(empty@ =~= Seq::<char>::empty());
        }
        Some((empty, i + 1))
    } else if c == '\\' {
        if i + 1 < v.len() {
            let e = v[i + 1];
            let u: char;
            if e == '"' {
                u = '"';
            } else if e == '\\' {
                u = '\\';
            } else if e == 'n' {
                u = '\n';
            } else {
                return None;
            }
            match parse_string_exec(v, i + 2) {
                Some((tail, j)) => {
                    let mut rs = String::new();
                    rs.push(u);
                    rs.append(tail.as_str());
                    proof {
                        assert(rs@ =~= seq![u] + tail@);
                    }
                    Some((rs, j))
                },
                None => None,
            }
        } else {
            None
        }
    } else {
        match parse_string_exec(v, i + 1) {
            Some((tail, j)) => {
                let mut rs = String::new();
                rs.push(c);
                rs.append(tail.as_str());
                proof {
                    assert(rs@ =~= seq![c] + tail@);
                }
                Some((rs, j))
            },
            None => None,
        }
    }
}

/// One or more quoted names starting at `i`, and the position just after
/// the list's closing bracket.
fn parse_items_exec(v: &Vec<char>, i: usize) -> (r: Option<(Vec<String>, usize)>)
    ensures
        match r {
            Some(t) => {
                &&& parse_items_at(v@, i as int) == Some((name_models(t.0@), t.1 as int))
                &&& i < t.1 <= v@.len()
            },
            None => parse_items_at(v@, i as int) is None,
        },
    decreases v@.len() - i,
{
    if i >= v.len() || v[i] != '"' {
        return None;
    }
    match parse_string_exec(v, i + 1) {
        Some((name, j)) => {
            if j < v.len() && v[j] == ']' {
                let mut names: Vec<String> = Vec::new();
                names.push(name);
                proof {
                    assert(name_models(names@) =~= seq![names@[0]@]);
                }
                Some((names, j + 1))
            } else if j < v.len() && j + 1 < v.len() && v[j] == ',' && v[j + 1] == ' ' {
                match parse_items_exec(v, j + 2) {
                    Some((mut rest, k)) => {
                        let ghost tail = rest@;
                        rest.insert(0, name);
                        proof {
                            assert(name_models(rest@) =~= seq![rest@[0]@] + name_models(tail));
                        }
                        Some((rest, k))
                    },
                    None => None,
                }
            } else {
                None
            }
        },
        None => None,
    }
}

/// Whether no name occurs twice.
fn names_distinct(names: &Vec<String>) -> (r: bool)
    ensures
        r == distinct_names(name_models(names@)),
{
    let ghost m = name_models(names@);
    let mut i: usize = 0;
    while i < names.len()
        invariant
            i <= names@.len(),
            m == name_models(names@),
            forall|a: int, b: int| 0 <= a < b < names@.len() && a < i ==> m[a] != m[b],
        decreases names@.len() - i,
    {
        let mut j: usize = i + 1;
        while j < names.len()
            invariant
                i < j <= names@.len() || (i >= names@.len() && j == i + 1),
                m == name_models(names@),
                forall|b: int| i < b < j ==> m[i as int] != m[b],
            decreases names@.len() - j,
        {
            if names[i] == names[j] {
                proof {
                    assert(m[i as int] == m[j as int]);
                }
                return false;
            }
            j += 1;
        }
        i += 1;
    }
    true
}

/// Deserializes a persisted text; a text that does not hold a record of
/// the persisted shape, names distinct, is reported corrupt.
pub fn parse_config(s: &str) -> (r: Result<MyPlugin, ConfigError>)
    ensures
        match r {
            Ok(c) => spec_parse(s@) == Some(c@) && c@.wf(),
            Err(_) => spec_parse(s@) is None,
        },
{
    let v = str_to_chars(s);
    if !has_lit_exec(&v, 0, "world_folder = \"") {
        return Err(ConfigError::Corrupt);
    }
    let start = "world_folder = \"".unicode_len();
    let (folder, j) = match parse_string_exec(&v, start) {
        Some(t) => t,
        None => {
            return Err(ConfigError::Corrupt);
        },
    };
    if !has_lit_exec(&v, j, "\nmanaged_worlds = [") {
        return Err(ConfigError::Corrupt);
    }
    let after = j + "\nmanaged_worlds = [".unicode_len();
    let (names, k) = if after < v.len() && v[after] == ']' {
        (Vec::new(), after + 1)
    } else {
        match parse_items_exec(&v, after) {
            Some(t) => t,
            None => {
                return Err(ConfigError::Corrupt);
            },
        }
    };
    proof {
        assert(parse_list_at(v@, after as int) == Some((name_models(names@), k as int))) by {
            if after < v@.len() && v@[after as int] == ']' && names@.len() == 0 {
                assert(name_models(names@) =~= Seq::<Seq<char>>::empty());
            }
        }
    }
    if !(k < v.len() && k + 1 == v.len() && v[k] == '\n') {
        return Err(ConfigError::Corrupt);
    }
    if !names_distinct(&names) {
        return Err(ConfigError::Corrupt);
    }
    let c = MyPlugin { world_folder: folder, managed_worlds: names };
    proof {
        assert(c@ =~= (ConfigModel { world_folder: folder@, managed_worlds: name_models(c.managed_worlds@) }));
        assert(spec_parse(s@) == Some(c@));
    }
    Ok(c)
}

/// Serializes the configuration to its persisted text.
pub fn encode_config(config: &MyPlugin) -> (r: String)
    ensures
        r@ == spec_encode(config@),
{
    let ghost names = config@.managed_worlds;
    let mut out = "world_folder = \"".to_owned();
    append_escaped(&mut out, config.world_folder.as_str());
    out.append("\"\nmanaged_worlds = [");
    let ghost head = "world_folder = \""@ + escape(config@.world_folder)
        + "\"\nmanaged_worlds = ["@;
    proof {
        assert(out@ =~= head);
        assert(names.subrange(0, 0) =~= Seq::<Seq<char>>::empty());
        assert(out@ =~= head + encode_list(names.subrange(0, 0)));
    }
    let mut i: usize = 0;
    while i < config.managed_worlds.len()
        invariant
            i <= names.len(),
            names == config@.managed_worlds,
            head == "world_folder = \""@ + escape(config@.world_folder)
                + "\"\nmanaged_worlds = ["@,
            out@ == head + encode_list(names.subrange(0, i as int)),
        decreases names.len() - i,
    {
        let ghost prefix = names.subrange(0, i as int);
        proof {
            assert(names.subrange(0, i + 1) =~= prefix.push(names[i as int]));
            lemma_encode_list_snoc(prefix, names[i as int]);
        }
        if i > 0 {
            out.append(", ");
            proof {
                reveal_strlit(", ");
                assert(", "@ =~= seq![',', ' ']);
            }
        }
        let ghost mid = out@;
        out.append("\"");
        append_escaped(&mut out, config.managed_worlds[i].as_str());
        out.append("\"");
        proof {
            reveal_strlit("\"");
            assert("\""@ =~= seq!['"']);
            assert(config.managed_worlds@[i as int]@ == names[i as int]);
            assert(out@ =~= mid + encode_item(names[i as int]));
            if i == 0 {
                assert(prefix.len() == 0);
                assert(encode_list(prefix) =~= Seq::<char>::empty());
                assert(mid =~= head);
                assert(out@ =~= head + encode_list(names.subrange(0, i + 1)));
            } else {
                assert(mid =~= (head + encode_list(prefix)) + seq![',', ' ']);
                assert(out@ =~= head + (encode_list(prefix) + seq![',', ' '] + encode_item(
                    names[i as int],
                )));
            }
        }
        i += 1;
    }
    out.append("]\n");
    proof {
        assert(names.subrange(0, names.len() as int) =~= names);
        assert(out@ =~= spec_encode(config@));
    }
    out
}

} // verus!
