//! Descriptors of commands: what a component tells the rest of the
//! application about a key binding it currently offers.

use vstd::prelude::*;
use vstd::string::*;

verus! {

/// The texts of a command. Two commands are the same command exactly when
/// their texts agree in every field.
#[derive(Copy, Clone, Debug, PartialEq, Eq)]
pub struct CommandText {
    /// Short label with the key, shown in every list of commands.
    pub name: &'static str,
    /// Long description, shown for the selected entry of the help overlay.
    pub desc: &'static str,
    /// Category under which the help overlay lists the command.
    pub group: &'static str,
    /// Whether the help overlay leaves the command out.
    pub hide_help: bool,
}

impl CommandText {
    /// A command text that the help overlay shows.
    pub fn new(name: &'static str, desc: &'static str, group: &'static str) -> (text: Self)
        ensures
            text == (CommandText { name, desc, group, hide_help: false }),
    {
        CommandText { name, desc, group, hide_help: false }
    }

    /// The same text, left out of the help overlay.
    pub fn hide_help(self) -> (text: Self)
        ensures
            text == (CommandText { hide_help: true, ..self }),
    {
        CommandText { name: self.name, desc: self.desc, group: self.group, hide_help: true }
    }

    /// Whether two texts describe the same command.
    pub open spec fn same(self, other: CommandText) -> bool {
        &&& self.name@ == other.name@
        &&& self.desc@ == other.desc@
        &&& self.group@ == other.group@
        &&& self.hide_help == other.hide_help
    }

    /// The order of command texts: by name, then by description, then by
    /// group, each compared as strings are, and last a shown text before a
    /// hidden one.
    pub open spec fn precedes(self, other: CommandText) -> bool {
        if self.name@ != other.name@ {
            str_lt(self.name@, other.name@)
        } else if self.desc@ != other.desc@ {
            str_lt(self.desc@, other.desc@)
        } else if self.group@ != other.group@ {
            str_lt(self.group@, other.group@)
        } else {
            !self.hide_help && other.hide_help
        }
    }
}

/// Lexicographic order of byte strings: at the first place where the two
/// differ the lesser byte decides, and a proper prefix comes first.
pub open spec fn bytes_lt(a: Seq<u8>, b: Seq<u8>) -> bool
    decreases a.len(),
{
    if b.len() == 0 {
        false
    } else if a.len() == 0 {
        true
    } else if a[0] != b[0] {
        a[0] < b[0]
    } else {
        bytes_lt(a.skip(1), b.skip(1))
    }
}

/// The order of strings: lexicographic by the bytes of their UTF-8 encoding.
pub open spec fn str_lt(a: Seq<char>, b: Seq<char>) -> bool {
    bytes_lt(vstd::utf8::encode_utf8(a), vstd::utf8::encode_utf8(b))
}

/// No byte string comes before itself.
pub proof fn lemma_bytes_lt_irreflexive(a: Seq<u8>)
    ensures
        !bytes_lt(a, a),
    decreases a.len(),
{
    if a.len() > 0 {
        lemma_bytes_lt_irreflexive(a.skip(1));
    }
}

/// The order of byte strings is transitive.
pub proof fn lemma_bytes_lt_transitive(a: Seq<u8>, b: Seq<u8>, c: Seq<u8>)
    requires
        bytes_lt(a, b),
        bytes_lt(b, c),
    ensures
        bytes_lt(a, c),
    decreases a.len(),
{
    if a.len() > 0 && a[0] == b[0] && b[0] == c[0] {
        lemma_bytes_lt_transitive(a.skip(1), b.skip(1), c.skip(1));
    }
}

/// Of two different byte strings one comes before the other.
pub proof fn lemma_bytes_lt_total(a: Seq<u8>, b: Seq<u8>)
    ensures
        bytes_lt(a, b) || bytes_lt(b, a) || a == b,
    decreases a.len(),
{
    if a.len() > 0 && b.len() > 0 && a[0] == b[0] {
        lemma_bytes_lt_total(a.skip(1), b.skip(1));
        if a.skip(1) == b.skip(1) {
            assert(a =~= seq![a[0]] + a.skip(1));
            assert(b =~= seq![b[0]] + b.skip(1));
        }
    } else if a.len() == 0 && b.len() == 0 {
        assert(a =~= b);
    }
}

/// Two strings with the same encoding are the same string.
pub proof fn lemma_encoding_injective(a: Seq<char>, b: Seq<char>)
    ensures
        vstd::utf8::encode_utf8(a) == vstd::utf8::encode_utf8(b) <==> a == b,
{
    vstd::utf8::encode_utf8_decode_utf8(a);
    vstd::utf8::encode_utf8_decode_utf8(b);
}

/// The order of command texts is a strict total order on the commands they
/// describe: no text precedes one of the same command, of two different
/// commands one precedes the other, and the order is transitive.
pub proof fn lemma_precedes_strict(a: CommandText, b: CommandText)
    ensures
        a.same(b) ==> !a.precedes(b),
        a.precedes(b) ==> !b.precedes(a),
        a.precedes(b) || b.precedes(a) || a.same(b),
{
    let (an, bn) = (vstd::utf8::encode_utf8(a.name@), vstd::utf8::encode_utf8(b.name@));
    let (ad, bd) = (vstd::utf8::encode_utf8(a.desc@), vstd::utf8::encode_utf8(b.desc@));
    let (ag, bg) = (vstd::utf8::encode_utf8(a.group@), vstd::utf8::encode_utf8(b.group@));
    lemma_encoding_injective(a.name@, b.name@);
    lemma_encoding_injective(a.desc@, b.desc@);
    lemma_encoding_injective(a.group@, b.group@);
    lemma_bytes_lt_total(an, bn);
    lemma_bytes_lt_total(ad, bd);
    lemma_bytes_lt_total(ag, bg);
    if bytes_lt(an, bn) && bytes_lt(bn, an) {
        lemma_bytes_lt_transitive(an, bn, an);
    }
    if bytes_lt(ad, bd) && bytes_lt(bd, ad) {
        lemma_bytes_lt_transitive(ad, bd, ad);
    }
    if bytes_lt(ag, bg) && bytes_lt(bg, ag) {
        lemma_bytes_lt_transitive(ag, bg, ag);
    }
    lemma_bytes_lt_irreflexive(an);
    lemma_bytes_lt_irreflexive(ad);
    lemma_bytes_lt_irreflexive(ag);
}

/// The order of command texts is transitive, and it does not tell texts of
/// the same command apart.
pub proof fn lemma_precedes_transitive(a: CommandText, b: CommandText, c: CommandText)
    ensures
        a.precedes(b) && b.precedes(c) ==> a.precedes(c),
        a.precedes(b) && b.same(c) ==> a.precedes(c),
        a.same(b) && b.precedes(c) ==> a.precedes(c),
{
    let (an, bn, cn) = (
        vstd::utf8::encode_utf8(a.name@),
        vstd::utf8::encode_utf8(b.name@),
        vstd::utf8::encode_utf8(c.name@),
    );
    let (ad, bd, cd) = (
        vstd::utf8::encode_utf8(a.desc@),
        vstd::utf8::encode_utf8(b.desc@),
        vstd::utf8::encode_utf8(c.desc@),
    );
    let (ag, bg, cg) = (
        vstd::utf8::encode_utf8(a.group@),
        vstd::utf8::encode_utf8(b.group@),
        vstd::utf8::encode_utf8(c.group@),
    );
    if a.precedes(b) && b.precedes(c) {
        if bytes_lt(an, bn) && bytes_lt(bn, cn) {
            lemma_bytes_lt_transitive(an, bn, cn);
            lemma_bytes_lt_irreflexive(an);
        }
        if bytes_lt(ad, bd) && bytes_lt(bd, cd) {
            lemma_bytes_lt_transitive(ad, bd, cd);
            lemma_bytes_lt_irreflexive(ad);
        }
        if bytes_lt(ag, bg) && bytes_lt(bg, cg) {
            lemma_bytes_lt_transitive(ag, bg, cg);
            lemma_bytes_lt_irreflexive(ag);
        }
    }
}

/// Whether `a` comes before `b` in the lexicographic order of byte strings.
pub fn bytes_less(a: &[u8], b: &[u8]) -> (less: bool)
    ensures
        less == bytes_lt(a@, b@),
{
    let mut i: usize = 0;
    assert(a@.skip(0) =~= a@ && b@.skip(0) =~= b@);
    while i < a.len() && i < b.len()
        invariant
            i <= a.len(),
            i <= b.len(),
            bytes_lt(a@, b@) == bytes_lt(a@.skip(i as int), b@.skip(i as int)),
        decreases a.len() - i,
    {
        if a[i] != b[i] {
            return a[i] < b[i];
        }
        assert(a@.skip(i as int).skip(1) =~= a@.skip(i + 1));
        assert(b@.skip(i as int).skip(1) =~= b@.skip(i + 1));
        i += 1;
    }
    i < b.len()
}

/// Whether two byte strings are equal.
pub fn bytes_equal(a: &[u8], b: &[u8]) -> (equal: bool)
    ensures
        equal == (a@ == b@),
{
    if a.len() != b.len() {
        return false;
    }
    let mut i: usize = 0;
    while i < a.len()
        invariant
            i <= a.len(),
            a.len() == b.len(),
            a@.take(i as int) == b@.take(i as int),
        decreases a.len() - i,
    {
        if a[i] != b[i] {
            return false;
        }
        assert(a@.take(i + 1) =~= a@.take(i as int).push(a@[i as int]));
        assert(b@.take(i + 1) =~= b@.take(i as int).push(b@[i as int]));
        i += 1;
    }
    assert(a@ =~= a@.take(i as int));
    assert(b@ =~= b@.take(i as int));
    true
}

/// Whether two strings are equal.
pub fn str_equal(a: &str, b: &str) -> (equal: bool)
    ensures
        equal == (a@ == b@),
{
    proof {
        lemma_encoding_injective(a@, b@);
    }
    bytes_equal(a.as_bytes(), b.as_bytes())
}

/// Whether `a` comes before `b` in the order of strings.
pub fn str_less(a: &str, b: &str) -> (less: bool)
    ensures
        less == str_lt(a@, b@),
{
    bytes_less(a.as_bytes(), b.as_bytes())
}

/// Whether two texts describe the same command.
pub fn same_text(a: &CommandText, b: &CommandText) -> (same: bool)
    ensures
        same == a.same(*b),
{
    str_equal(a.name, b.name) && str_equal(a.desc, b.desc) && str_equal(a.group, b.group)
        && a.hide_help == b.hide_help
}

/// Whether `a` comes before `b` in the order of command texts.
pub fn text_precedes(a: &CommandText, b: &CommandText) -> (before: bool)
    ensures
        before == a.precedes(*b),
{
    if !str_equal(a.name, b.name) {
        str_less(a.name, b.name)
    } else if !str_equal(a.desc, b.desc) {
        str_less(a.desc, b.desc)
    } else if !str_equal(a.group, b.group) {
        str_less(a.group, b.group)
    } else {
        !a.hide_help && b.hide_help
    }
}

/// A command as a component reports it: its texts and its current state.
#[derive(Copy, Clone, Debug, PartialEq, Eq)]
pub struct CommandInfo {
    /// The texts of the command.
    pub text: CommandText,
    /// Whether the command can be used right now.
    pub enabled: bool,
    /// Whether the command may appear in the quick bar.
    pub quick_bar: bool,
    /// Whether the command exists in the current context.
    pub available: bool,
    /// Rank of the command among those listed together; lower comes first.
    pub order: i8,
}

impl CommandInfo {
    /// A command of rank 0 that may appear in the quick bar.
    pub fn new(text: CommandText, enabled: bool, available: bool) -> (info: Self)
        ensures
            info == (CommandInfo { text, enabled, quick_bar: true, available, order: 0 }),
    {
        CommandInfo { text, enabled, quick_bar: true, available, order: 0 }
    }

    /// The same command with another rank.
    pub fn order(self, order: i8) -> (info: Self)
        ensures
            info == (CommandInfo { order, ..self }),
    {
        CommandInfo {
            text: self.text,
            enabled: self.enabled,
            quick_bar: self.quick_bar,
            available: self.available,
            order,
        }
    }

    /// The same command, kept out of the quick bar.
    pub fn hidden(self) -> (info: Self)
        ensures
            info == (CommandInfo { quick_bar: false, ..self }),
    {
        CommandInfo {
            text: self.text,
            enabled: self.enabled,
            quick_bar: false,
            available: self.available,
            order: self.order,
        }
    }

    /// Appends the label of the command to `out`.
    pub fn print(&self, out: &mut String)
        ensures
            final(out)@ == old(out)@ + self.text.name@,
    {
        out.append(self.text.name);
    }

    /// Whether the quick bar shows the command.
    pub fn show_in_quickbar(&self) -> (shown: bool)
        ensures
            shown == (self.quick_bar && self.available),
    {
        self.quick_bar && self.available
    }
}

} // verus!
