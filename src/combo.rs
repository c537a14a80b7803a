use vstd::prelude::*;
use vstd::string::*;
use crate::error::LauncherError;

verus! {

/// A global hotkey: a set of modifier keys and exactly one base key.
///
/// The base key is an ASCII lower-case letter or a digit. The text form lists
/// the modifiers present in the canonical order control, shift, alt, meta,
/// each followed by `+`, and ends with the base key (`control+shift+n`).
#[derive(Clone, Copy, Debug, PartialEq, Eq, Structural)]
pub struct KeyCombination {
    pub control: bool,
    pub shift: bool,
    pub alt: bool,
    pub meta: bool,
    pub key: char,
}

pub open spec fn is_key_char(c: char) -> bool {
    ('a' <= c && c <= 'z') || ('0' <= c && c <= '9')
}

pub open spec fn control_word() -> Seq<char> {
    seq!['c', 'o', 'n', 't', 'r', 'o', 'l']
}

pub open spec fn shift_word() -> Seq<char> {
    seq!['s', 'h', 'i', 'f', 't']
}

pub open spec fn alt_word() -> Seq<char> {
    seq!['a', 'l', 't']
}

pub open spec fn meta_word() -> Seq<char> {
    seq!['m', 'e', 't', 'a']
}

/// Which modifier a token names: 0 control, 1 shift, 2 alt, 3 meta.
pub open spec fn modifier_of(t: Seq<char>) -> Option<int> {
    if t == control_word() {
        Some(0)
    } else if t == shift_word() {
        Some(1)
    } else if t == alt_word() {
        Some(2)
    } else if t == meta_word() {
        Some(3)
    } else {
        None
    }
}

/// The tokens of `s` between the `+` signs, from left to right.
pub open spec fn split_plus(s: Seq<char>) -> Seq<Seq<char>>
    decreases s.len(),
{
    if s.len() == 0 {
        seq![Seq::<char>::empty()]
    } else {
        let r = split_plus(s.drop_last());
        if s.last() == '+' {
            r.push(Seq::<char>::empty())
        } else {
            r.update(r.len() - 1, r.last().push(s.last()))
        }
    }
}

/// Each word followed by `+`, in order.
pub open spec fn plus_prefix(ws: Seq<Seq<char>>) -> Seq<char>
    decreases ws.len(),
{
    if ws.len() == 0 {
        Seq::empty()
    } else {
        plus_prefix(ws.drop_last()) + ws.last() + seq!['+']
    }
}

/// The modifier flags (control, shift, alt, meta) that a list of tokens names,
/// each at most once; `None` when a token is no modifier or comes twice.
pub open spec fn modifiers_of(ts: Seq<Seq<char>>) -> Option<(bool, bool, bool, bool)>
    decreases ts.len(),
{
    if ts.len() == 0 {
        Some((false, false, false, false))
    } else {
        match modifiers_of(ts.drop_last()) {
            None => None,
            Some(m) => match modifier_of(ts.last()) {
                None => None,
                Some(i) => if i == 0 && !m.0 {
                    Some((true, m.1, m.2, m.3))
                } else if i == 1 && !m.1 {
                    Some((m.0, true, m.2, m.3))
                } else if i == 2 && !m.2 {
                    Some((m.0, m.1, true, m.3))
                } else if i == 3 && !m.3 {
                    Some((m.0, m.1, m.2, true))
                } else {
                    None
                },
            },
        }
    }
}

/// What a text denotes: modifier tokens in any order, each at most once, then
/// one base key.
pub open spec fn parse_spec(s: Seq<char>) -> Option<KeyCombination> {
    let ts = split_plus(s);
    let k = ts.last();
    match modifiers_of(ts.drop_last()) {
        None => None,
        Some(m) => if k.len() == 1 && is_key_char(k[0]) {
            Some(KeyCombination { control: m.0, shift: m.1, alt: m.2, meta: m.3, key: k[0] })
        } else {
            None
        },
    }
}

impl KeyCombination {
    /// The base key is a lower-case ASCII letter or a digit.
    pub open spec fn is_well_formed(self) -> bool {
        is_key_char(self.key)
    }

    pub open spec fn has_modifier(self) -> bool {
        self.control || self.shift || self.alt || self.meta
    }

    /// A combination that may be bound: well formed, with at least one modifier.
    pub open spec fn is_bindable(self) -> bool {
        self.is_well_formed() && self.has_modifier()
    }

    /// The names of the modifiers present, in canonical order.
    pub open spec fn modifier_words(self) -> Seq<Seq<char>> {
        (if self.control { seq![control_word()] } else { seq![] }) + (if self.shift {
            seq![shift_word()]
        } else {
            seq![]
        }) + (if self.alt { seq![alt_word()] } else { seq![] }) + (if self.meta {
            seq![meta_word()]
        } else {
            seq![]
        })
    }

    /// The canonical text form.
    pub open spec fn text(self) -> Seq<char> {
        plus_prefix(self.modifier_words()) + seq![self.key]
    }
}

pub open spec fn has_no_plus(t: Seq<char>) -> bool {
    forall|i: int| 0 <= i < t.len() ==> t[i] != '+'
}

proof fn lemma_split_len(s: Seq<char>)
    ensures
        split_plus(s).len() >= 1,
    decreases s.len(),
{
    if s.len() > 0 {
        lemma_split_len(s.drop_last());
    }
}

/// Appending text without `+` extends the last token.
proof fn lemma_split_extend(s: Seq<char>, t: Seq<char>)
    requires
        has_no_plus(t),
    ensures
        split_plus(s + t).len() == split_plus(s).len(),
        split_plus(s + t) == split_plus(s).update(
            split_plus(s).len() - 1,
            split_plus(s).last() + t,
        ),
    decreases t.len(),
{
    lemma_split_len(s);
    if t.len() == 0 {
        assert(s + t =~= s);
        assert(split_plus(s).last() + t =~= split_plus(s).last());
        assert(split_plus(s).update(split_plus(s).len() - 1, split_plus(s).last())
            =~= split_plus(s));
    } else {
        let t1 = t.drop_last();
        lemma_split_extend(s, t1);
        assert((s + t).drop_last() =~= s + t1);
        assert((s + t).last() == t.last());
        assert(t[t.len() - 1] != '+');
        let sp = split_plus(s);
        let r = split_plus(s + t1);
        assert(r.last() == sp.last() + t1);
        assert(r.last().push(t.last()) =~= sp.last() + t);
        assert(split_plus(s + t) == r.update(r.len() - 1, r.last().push(t.last())));
        assert(split_plus(s + t) =~= split_plus(s).update(
            split_plus(s).len() - 1,
            split_plus(s).last() + t,
        ));
    }
}

/// Words without `+`, each followed by `+`, split back into the words and an
/// empty last token.
proof fn lemma_split_prefix(ws: Seq<Seq<char>>)
    requires
        forall|i: int| 0 <= i < ws.len() ==> has_no_plus(#[trigger] ws[i]),
    ensures
        split_plus(plus_prefix(ws)) == ws.push(Seq::<char>::empty()),
    decreases ws.len(),
{
    if ws.len() == 0 {
        assert(split_plus(Seq::<char>::empty()) =~= seq![Seq::<char>::empty()]);
    } else {
        let w = ws.last();
        let p = plus_prefix(ws.drop_last());
        assert forall|i: int| 0 <= i < ws.drop_last().len() implies has_no_plus(
            #[trigger] ws.drop_last()[i],
        ) by {
            assert(ws.drop_last()[i] == ws[i]);
        }
        lemma_split_prefix(ws.drop_last());
        assert(has_no_plus(ws[ws.len() - 1]));
        lemma_split_extend(p, w);
        assert(Seq::<char>::empty() + w =~= w);
        assert(split_plus(p + w) =~= ws);
        assert((p + w + seq!['+']).drop_last() =~= p + w);
        assert(plus_prefix(ws) == p + w + seq!['+']);
    }
}

proof fn lemma_words_no_plus()
    ensures
        has_no_plus(control_word()),
        has_no_plus(shift_word()),
        has_no_plus(alt_word()),
        has_no_plus(meta_word()),
{
}

/// Parsing the canonical text of a well-formed combination gives it back.
pub proof fn lemma_parse_text(c: KeyCombination)
    requires
        c.is_well_formed(),
    ensures
        parse_spec(c.text()) == Some(c),
{
    let ws = c.modifier_words();
    lemma_words_no_plus();
    assert forall|i: int| 0 <= i < ws.len() implies has_no_plus(#[trigger] ws[i]) by {
    }
    lemma_split_prefix(ws);
    lemma_split_extend(plus_prefix(ws), seq![c.key]);
    let ts = split_plus(c.text());
    assert(ts =~= ws.push(seq![c.key]));
    assert(ts.drop_last() =~= ws);
    assert(ts.last() =~= seq![c.key]);
    lemma_modifier_words(c);
}

/// The modifier words of a combination name exactly its modifiers.
proof fn lemma_modifier_words(c: KeyCombination)
    ensures
        modifiers_of(c.modifier_words()) == Some((c.control, c.shift, c.alt, c.meta)),
{
    assert(control_word().len() == 7);
    assert(shift_word().len() == 5);
    assert(alt_word().len() == 3);
    assert(meta_word().len() == 4);
    let e = Seq::<Seq<char>>::empty();
    let w0: Seq<Seq<char>> = if c.control { e.push(control_word()) } else { e };
    let w1: Seq<Seq<char>> = if c.shift { w0.push(shift_word()) } else { w0 };
    let w2: Seq<Seq<char>> = if c.alt { w1.push(alt_word()) } else { w1 };
    let w3: Seq<Seq<char>> = if c.meta { w2.push(meta_word()) } else { w2 };
    assert(modifiers_of(e) == Some((false, false, false, false)));
    if c.control {
        assert(w0.drop_last() =~= e);
    }
    assert(modifiers_of(w0) == Some((c.control, false, false, false)));
    if c.shift {
        assert(w1.drop_last() =~= w0);
    }
    assert(modifiers_of(w1) == Some((c.control, c.shift, false, false)));
    if c.alt {
        assert(w2.drop_last() =~= w1);
    }
    assert(modifiers_of(w2) == Some((c.control, c.shift, c.alt, false)));
    if c.meta {
        assert(w3.drop_last() =~= w2);
    }
    assert(modifiers_of(w3) == Some((c.control, c.shift, c.alt, c.meta)));
    assert(c.modifier_words() =~= w3);
}

/// Relies on `String::push`: the char is appended at the end.
#[verifier::external_body]
fn push_char(s: &mut String, c: char)
    ensures
        final(s)@ == old(s)@.push(c),
{
    s.push(c);
}

/// Whether the token spells the word.
fn token_is(t: &Vec<char>, w: &str) -> (r: bool)
    ensures
        r == (t@ == w@),
{
    let n = w.unicode_len();
    if t.len() != n {
        return false;
    }
    let mut i: usize = 0;
    while i < n
        invariant
            n == w@.len(),
            t@.len() == n,
            i <= n,
            forall|k: int| 0 <= k < i ==> t@[k] == w@[k],
        decreases n - i,
    {
        if t[i] != w.get_char(i) {
            return false;
        }
        i += 1;
    }
    assert(t@ =~= w@);
    true
}

/// The modifier that a token names, as in `modifier_of`.
fn modifier_index(t: &Vec<char>) -> (r: Option<u8>)
    ensures
        r is None <==> modifier_of(t@) is None,
        r is Some ==> modifier_of(t@) == Some(r->0 as int),
{
    proof {
        reveal_strlit("control");
        reveal_strlit("shift");
        reveal_strlit("alt");
        reveal_strlit("meta");
        assert("control"@ =~= control_word());
        assert("shift"@ =~= shift_word());
        assert("alt"@ =~= alt_word());
        assert("meta"@ =~= meta_word());
    }
    if token_is(t, "control") {
        Some(0)
    } else if token_is(t, "shift") {
        Some(1)
    } else if token_is(t, "alt") {
        Some(2)
    } else if token_is(t, "meta") {
        Some(3)
    } else {
        None
    }
}

proof fn lemma_modifiers_none(ts: Seq<Seq<char>>, j: int)
    requires
        0 <= j <= ts.len(),
        modifiers_of(ts.subrange(0, j)) is None,
    ensures
        modifiers_of(ts) is None,
    decreases ts.len(),
{
    if j == ts.len() {
        assert(ts.subrange(0, j) =~= ts);
    } else {
        assert(ts.drop_last().subrange(0, j) =~= ts.subrange(0, j));
        lemma_modifiers_none(ts.drop_last(), j);
    }
}

pub open spec fn views(ts: Seq<Vec<char>>) -> Seq<Seq<char>> {
    ts.map_values(|v: Vec<char>| v@)
}

/// Splits a text at its `+` signs.
fn split_tokens(text: &str) -> (r: (Vec<Vec<char>>, Vec<char>))
    ensures
        views(r.0@).push(r.1@) == split_plus(text@),
{
    let n = text.unicode_len();
    let mut tokens: Vec<Vec<char>> = Vec::new();
    let mut cur: Vec<char> = Vec::new();
    let mut i: usize = 0;
    assert(text@.subrange(0, 0) =~= Seq::<char>::empty());
    assert(views(tokens@).push(cur@) =~= seq![Seq::<char>::empty()]);
    while i < n
        invariant
            n == text@.len(),
            i <= n,
            views(tokens@).push(cur@) == split_plus(text@.subrange(0, i as int)),
        decreases n - i,
    {
        let c = text.get_char(i);
        let ghost before = views(tokens@).push(cur@);
        let ghost prev = text@.subrange(0, i as int);
        assert(text@.subrange(0, i + 1).drop_last() =~= prev);
        assert(text@.subrange(0, i + 1).last() == c);
        if c == '+' {
            tokens.push(cur);
            cur = Vec::new();
            assert(views(tokens@).push(cur@) =~= before.push(Seq::<char>::empty()));
        } else {
            cur.push(c);
            assert(views(tokens@).push(cur@) =~= before.update(
                before.len() - 1,
                before.last().push(c),
            ));
        }
        i += 1;
    }
    assert(text@.subrange(0, n as int) =~= text@);
    (tokens, cur)
}

impl KeyCombination {
    /// Reads a combination from its text form: modifier names in any order,
    /// each at most once, then one base key, all separated by `+`.
    pub fn parse(text: &str) -> (r: Result<KeyCombination, LauncherError>)
        ensures
            parse_spec(text@) matches Some(c) ==> r == Ok::<KeyCombination, LauncherError>(c),
            parse_spec(text@) is None ==> r == Err::<KeyCombination, LauncherError>(
                LauncherError::InvalidCombination,
            ),
    {
        let (tokens, last) = split_tokens(text);
        let ghost ts = views(tokens@);
        assert(split_plus(text@).drop_last() =~= ts);
        let mut control = false;
        let mut shift = false;
        let mut alt = false;
        let mut meta = false;
        let mut j: usize = 0;
        assert(ts.subrange(0, 0) =~= Seq::<Seq<char>>::empty());
        while j < tokens.len()
            invariant
                ts == views(tokens@),
                split_plus(text@).drop_last() == ts,
                j <= tokens.len(),
                modifiers_of(ts.subrange(0, j as int)) == Some((control, shift, alt, meta)),
            decreases tokens.len() - j,
        {
            assert(ts.subrange(0, j + 1).drop_last() =~= ts.subrange(0, j as int));
            assert(ts.subrange(0, j + 1).last() == tokens[j as int]@);
            let k = modifier_index(&tokens[j]);
            let fresh = match k {
                None => false,
                Some(i) => (i == 0 && !control) || (i == 1 && !shift) || (i == 2 && !alt) || (i
                    == 3 && !meta),
            };
            if !fresh {
                proof {
                    let m = modifiers_of(ts.subrange(0, j as int));
                    assert(m == Some((control, shift, alt, meta)));
                    assert(modifiers_of(ts.subrange(0, j + 1)) is None);
                    lemma_modifiers_none(ts, j + 1);
                }
                return Err(LauncherError::InvalidCombination);
            }
            match k {
                Some(0) => control = true,
                Some(1) => shift = true,
                Some(2) => alt = true,
                _ => meta = true,
            }
            j += 1;
        }
        assert(ts.subrange(0, j as int) =~= ts);
        if last.len() == 1 {
            let key = last[0];
            if ('a' <= key && key <= 'z') || ('0' <= key && key <= '9') {
                return Ok(KeyCombination { control, shift, alt, meta, key });
            }
        }
        Err(LauncherError::InvalidCombination)
    }

    /// The canonical text form.
    pub fn serialize(&self) -> (r: String)
        ensures
            r@ == self.text(),
    {
        let ghost e = Seq::<Seq<char>>::empty();
        let ghost mut ws = e;
        let mut s = String::new();
        proof {
            reveal_strlit("control+");
            reveal_strlit("shift+");
            reveal_strlit("alt+");
            reveal_strlit("meta+");
        }
        if self.control {
            s.append("control+");
            proof {
                let w0 = ws;
                assert(ws.push(control_word()).drop_last() =~= ws);
                ws = ws.push(control_word());
                assert(plus_prefix(ws) == plus_prefix(w0) + control_word() + seq!['+']);
                assert("control+"@ =~= control_word() + seq!['+']);
            }
        }
        assert(s@ =~= plus_prefix(ws));
        if self.shift {
            s.append("shift+");
            proof {
                let w0 = ws;
                assert(ws.push(shift_word()).drop_last() =~= ws);
                ws = ws.push(shift_word());
                assert(plus_prefix(ws) == plus_prefix(w0) + shift_word() + seq!['+']);
                assert("shift+"@ =~= shift_word() + seq!['+']);
            }
        }
        assert(s@ =~= plus_prefix(ws));
        if self.alt {
            s.append("alt+");
            proof {
                let w0 = ws;
                assert(ws.push(alt_word()).drop_last() =~= ws);
                ws = ws.push(alt_word());
                assert(plus_prefix(ws) == plus_prefix(w0) + alt_word() + seq!['+']);
                assert("alt+"@ =~= alt_word() + seq!['+']);
            }
        }
        assert(s@ =~= plus_prefix(ws));
        if self.meta {
            s.append("meta+");
            proof {
                let w0 = ws;
                assert(ws.push(meta_word()).drop_last() =~= ws);
                ws = ws.push(meta_word());
                assert(plus_prefix(ws) == plus_prefix(w0) + meta_word() + seq!['+']);
                assert("meta+"@ =~= meta_word() + seq!['+']);
            }
        }
        assert(s@ =~= plus_prefix(ws));
        assert(ws =~= self.modifier_words());
        push_char(&mut s, self.key);
        s
    }

    /// Whether the combination may be bound: a valid base key and at least one
    /// modifier, so that it cannot swallow normal typing.
    pub fn check_bindable(&self) -> (r: Result<(), LauncherError>)
        ensures
            self.is_bindable() ==> r is Ok,
            !self.is_bindable() ==> r == Err::<(), LauncherError>(LauncherError::InvalidCombination),
    {
        let k = self.key;
        let key_ok = ('a' <= k && k <= 'z') || ('0' <= k && k <= '9');
        if key_ok && (self.control || self.shift || self.alt || self.meta) {
            Ok(())
        } else {
            Err(LauncherError::InvalidCombination)
        }
    }
}

} // verus!
