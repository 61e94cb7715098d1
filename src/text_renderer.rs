//! How text and characters are spoken: phrases replaced by their
//! definitions, characters looked up in a table.

use vstd::prelude::*;
use crate::text::{chars_of, string_of, matches_at, copy_range, same_chars};

verus! {

/// The word said for a blank line or a newline.
pub open spec fn blank_word() -> Seq<char> {
    seq!['b', 'l', 'a', 'n', 'k']
}

/// `s` with every occurrence of `p`, from the left and without overlap,
/// replaced by `r`, as `str::replace` does; an empty `p` matches before
/// every character and at the end.
pub open spec fn replace_all(s: Seq<char>, p: Seq<char>, r: Seq<char>) -> Seq<char>
    decreases s.len(),
{
    if p.len() == 0 {
        if s.len() == 0 {
            r
        } else {
            r + seq![s[0]] + replace_all(s.drop_first(), p, r)
        }
    } else if s.len() < p.len() {
        s
    } else if s.take(p.len() as int) == p {
        r + replace_all(s.skip(p.len() as int), p, r)
    } else {
        seq![s[0]] + replace_all(s.drop_first(), p, r)
    }
}

/// `s` after each definition, in order, replaced its phrase.
pub open spec fn apply_definitions(s: Seq<char>, defs: Seq<(Seq<char>, Seq<char>)>) -> Seq<char>
    decreases defs.len(),
{
    if defs.len() == 0 {
        s
    } else {
        let t = apply_definitions(s, defs.drop_last());
        replace_all(t, defs.last().0, defs.last().1)
    }
}

/// The definition of `k` in a table with unique keys.
pub open spec fn lookup<K>(table: Seq<(K, Seq<char>)>, k: K) -> Option<Seq<char>> {
    if exists|i: int| 0 <= i < table.len() && table[i].0 == k {
        Some(table[choose|i: int| 0 <= i < table.len() && table[i].0 == k].1)
    } else {
        None
    }
}

/// Whether a table's keys are unique.
pub open spec fn unique_keys<K>(table: Seq<(K, Seq<char>)>) -> bool {
    forall|i: int, j: int| 0 <= i < j < table.len() ==> table[i].0 != table[j].0
}

/// `table` with `k` defined as `d`: an existing entry is replaced in place,
/// else the entry is added at the end.
pub open spec fn define<K>(table: Seq<(K, Seq<char>)>, k: K, d: Seq<char>) -> Seq<(K, Seq<char>)> {
    if exists|i: int| 0 <= i < table.len() && table[i].0 == k {
        table.update(choose|i: int| 0 <= i < table.len() && table[i].0 == k, (k, d))
    } else {
        table.push((k, d))
    }
}

/// The tables, mathematically: character definitions, and phrase
/// definitions in the order they are applied.
pub struct RendererView {
    pub characters: Seq<(char, Seq<char>)>,
    pub strings: Seq<(Seq<char>, Seq<char>)>,
}

impl RendererView {
    pub open spec fn wf(&self) -> bool {
        unique_keys(self.characters) && unique_keys(self.strings)
    }
}

/// Definitions of how characters and phrases are spoken.
pub struct TextRenderer {
    characters_definitions: Vec<(char, String)>,
    strings_definitions: Vec<(String, String)>,
}

impl View for TextRenderer {
    type V = RendererView;

    closed spec fn view(&self) -> RendererView {
        RendererView {
            characters: self.characters_definitions@.map_values(|e: (char, String)| (e.0, e.1@)),
            strings: self.strings_definitions@.map_values(|e: (String, String)| (e.0@, e.1@)),
        }
    }
}

/// "blank", as a string.
fn blank_string() -> (r: String)
    ensures
        r@ == blank_word(),
{
    let v = vec!['b', 'l', 'a', 'n', 'k'];
    assert(v@ == blank_word());
    string_of(v.as_slice())
}

/// `s` with every occurrence of `p` replaced by `r`.
pub fn replace_chars(s: &Vec<char>, p: &Vec<char>, r: &Vec<char>) -> (out: Vec<char>)
    ensures
        out@ == replace_all(s@, p@, r@),
{
    let mut out: Vec<char> = Vec::new();
    let mut i: usize = 0;
    let n = s.len();
    let m = p.len();
    assert(s@.skip(0) =~= s@);
    while i < n
        invariant
            n == s@.len(),
            m == p@.len(),
            i <= n,
            out@ + replace_all(s@.skip(i as int), p@, r@) == replace_all(s@, p@, r@),
        decreases n - i,
    {
        let ghost rest = s@.skip(i as int);
        let ghost before = out@;
        if m == 0 {
            let mut rc = copy_range(r, 0, r.len());
            out.append(&mut rc);
            out.push(s[i]);
            assert(rest.drop_first() =~= s@.skip(i + 1));
            assert(r@.subrange(0, r@.len() as int) =~= r@);
            assert(out@ =~= before + r@ + seq![rest[0]]);
            i = i + 1;
        } else if m > n - i {
            let mut tail = copy_range(s, i, n);
            out.append(&mut tail);
            assert(out@ =~= before + rest);
            i = n;
            assert(out@ + replace_all(s@.skip(n as int), p@, r@) =~= out@ + seq![]) by {
                assert(s@.skip(n as int) =~= Seq::<char>::empty());
            }
            assert(replace_all(Seq::<char>::empty(), p@, r@) == Seq::<char>::empty());
        } else if matches_at(s, i, p) {
            let mut rc = copy_range(r, 0, r.len());
            out.append(&mut rc);
            assert(r@.subrange(0, r@.len() as int) =~= r@);
            assert(rest.skip(m as int) =~= s@.skip(i + m));
            assert(out@ =~= before + r@);
            i = i + m;
        } else {
            out.push(s[i]);
            assert(rest.drop_first() =~= s@.skip(i + 1));
            assert(out@ =~= before + seq![rest[0]]);
            i = i + 1;
        }
    }
    if m == 0 {
        let mut rc = copy_range(r, 0, r.len());
        let ghost before = out@;
        out.append(&mut rc);
        assert(r@.subrange(0, r@.len() as int) =~= r@);
        assert(s@.skip(n as int) =~= Seq::<char>::empty());
        assert(out@ =~= before + r@);
    } else {
        assert(s@.skip(n as int) =~= Seq::<char>::empty());
        assert(out@ + Seq::<char>::empty() =~= out@);
    }
    out
}

impl TextRenderer {
    /// No definitions.
    pub fn new() -> (r: TextRenderer)
        ensures
            r@.characters.len() == 0,
            r@.strings.len() == 0,
            r@.wf(),
    {
        let r = TextRenderer { characters_definitions: Vec::new(), strings_definitions: Vec::new() };
        assert(r@.characters =~= Seq::<(char, Seq<char>)>::empty());
        assert(r@.strings =~= Seq::<(Seq<char>, Seq<char>)>::empty());
        r
    }

    /// How `text` is spoken: "blank" for an empty text or a lone newline,
    /// else the text with each phrase definition applied in order.
    pub fn render_text(&self, text: &str) -> (r: String)
        requires
            self@.wf(),
        ensures
            text@ == Seq::<char>::empty() || text@ == seq!['\n'] ==> r@ == blank_word(),
            !(text@ == Seq::<char>::empty() || text@ == seq!['\n']) ==> r@ == apply_definitions(
                text@,
                self@.strings,
            ),
    {
        let t = chars_of(text);
        if t.len() == 0 || (t.len() == 1 && t[0] == '\n') {
            if t.len() == 1 {
                assert(t@ =~= seq!['\n']);
            } else {
                assert(t@ =~= Seq::<char>::empty());
            }
            return blank_string();
        }
        assert(t@ != seq!['\n']) by {
            if t@ == seq!['\n'] {
                assert(t@.len() == 1 && t@[0] == '\n');
            }
        }
        let ghost defs = self@.strings;
        let mut cur = t;
        let mut i: usize = 0;
        assert(defs.take(0) =~= Seq::<(Seq<char>, Seq<char>)>::empty());
        while i < self.strings_definitions.len()
            invariant
                defs == self@.strings,
                i <= defs.len(),
                cur@ == apply_definitions(text@, defs.take(i as int)),
            decreases defs.len() - i,
        {
            let k = chars_of(self.strings_definitions[i].0.as_str());
            let d = chars_of(self.strings_definitions[i].1.as_str());
            assert(k@ == defs[i as int].0 && d@ == defs[i as int].1);
            assert(defs.take(i + 1).drop_last() =~= defs.take(i as int));
            assert(defs.take(i + 1).last() == defs[i as int]);
            cur = replace_chars(&cur, &k, &d);
            i = i + 1;
        }
        assert(defs.take(defs.len() as int) =~= defs);
        string_of(cur.as_slice())
    }

    /// How `character` is spoken: "blank" for a newline, else its
    /// definition, if it has one.
    pub fn render_character(&self, character: char) -> (r: Option<String>)
        requires
            self@.wf(),
        ensures
            character == '\n' ==> r is Some && r->0@ == blank_word(),
            character != '\n' ==> match lookup(self@.characters, character) {
                Some(d) => r is Some && r->0@ == d,
                None => r is None,
            },
    {
        if character == '\n' {
            return Some(blank_string());
        }
        let ghost table = self@.characters;
        let mut i: usize = 0;
        while i < self.characters_definitions.len()
            invariant
                table == self@.characters,
                self@.wf(),
                character != '\n',
                i <= table.len(),
                forall|k: int| 0 <= k < i ==> table[k].0 != character,
            decreases table.len() - i,
        {
            assert(table[i as int].0 == self.characters_definitions@[i as int].0);
            if self.characters_definitions[i].0 == character {
                let d = chars_of(self.characters_definitions[i].1.as_str());
                assert(table[i as int].0 == character);
                assert(d@ == table[i as int].1);
                proof {
                    let j = choose|j: int| 0 <= j < table.len() && table[j].0 == character;
                    assert(j == i);
                }
                return Some(string_of(d.as_slice()));
            }
            i = i + 1;
        }
        None
    }

    /// Defines how `character` is spoken.
    pub fn add_character_definition(&mut self, character: char, definition: &str)
        requires
            old(self)@.wf(),
        ensures
            final(self)@.characters == define(old(self)@.characters, character, definition@),
            final(self)@.strings == old(self)@.strings,
            final(self)@.wf(),
    {
        let ghost table = self@.characters;
        let mut i: usize = 0;
        while i < self.characters_definitions.len()
            invariant
                table == self@.characters,
                old(self)@ == self@,
                self@.wf(),
                i <= table.len(),
                forall|k: int| 0 <= k < i ==> table[k].0 != character,
            decreases table.len() - i,
        {
            assert(table[i as int].0 == self.characters_definitions@[i as int].0);
            if self.characters_definitions[i].0 == character {
                assert(table[i as int].0 == character);
                proof {
                    let j = choose|j: int| 0 <= j < table.len() && table[j].0 == character;
                    assert(j == i);
                }
                self.characters_definitions.set(i, (character, definition.to_owned()));
                assert(self@.characters =~= table.update(i as int, (character, definition@)));
                return;
            }
            i = i + 1;
        }
        self.characters_definitions.push((character, definition.to_owned()));
        assert(self@.characters =~= table.push((character, definition@)));
    }

    /// Defines how the phrase `string` is spoken.
    pub fn add_string_definition(&mut self, string: &str, definition: &str)
        requires
            old(self)@.wf(),
        ensures
            final(self)@.strings == define(old(self)@.strings, string@, definition@),
            final(self)@.characters == old(self)@.characters,
            final(self)@.wf(),
    {
        let ghost table = self@.strings;
        let key = chars_of(string);
        let mut i: usize = 0;
        while i < self.strings_definitions.len()
            invariant
                table == self@.strings,
                old(self)@ == self@,
                self@.wf(),
                key@ == string@,
                i <= table.len(),
                forall|k: int| 0 <= k < i ==> table[k].0 != string@,
            decreases table.len() - i,
        {
            let existing = chars_of(self.strings_definitions[i].0.as_str());
            assert(existing@ == table[i as int].0);
            if same_chars(&existing, &key) {
                proof {
                    let j = choose|j: int| 0 <= j < table.len() && table[j].0 == string@;
                    assert(j == i);
                }
                self.strings_definitions.set(i, (string.to_owned(), definition.to_owned()));
                assert(self@.strings =~= table.update(i as int, (string@, definition@)));
                return;
            }
            i = i + 1;
        }
        self.strings_definitions.push((string.to_owned(), definition.to_owned()));
        assert(self@.strings =~= table.push((string@, definition@)));
    }

    /// The character definitions, in the order they were first made.
    pub fn character_definitions(&self) -> (r: Vec<(char, String)>)
        ensures
            r@.map_values(|e: (char, String)| (e.0, e.1@)) == self@.characters,
    {
        let mut r: Vec<(char, String)> = Vec::new();
        let mut i: usize = 0;
        while i < self.characters_definitions.len()
            invariant
                i <= self.characters_definitions@.len(),
                r@.map_values(|e: (char, String)| (e.0, e.1@)) == self@.characters.take(i as int),
            decreases self.characters_definitions@.len() - i,
        {
            let ghost before = r@.map_values(|e: (char, String)| (e.0, e.1@));
            let c = self.characters_definitions[i].0;
            let d = self.characters_definitions[i].1.clone();
            r.push((c, d));
            assert(r@.map_values(|e: (char, String)| (e.0, e.1@)) =~= before.push(self@.characters[i as int]));
            assert(self@.characters.take(i + 1) =~= self@.characters.take(i as int).push(self@.characters[i as int]));
            i = i + 1;
        }
        assert(self@.characters.take(i as int) =~= self@.characters);
        r
    }

    /// The phrase definitions, in the order they are applied.
    pub fn string_definitions(&self) -> (r: Vec<(String, String)>)
        ensures
            r@.map_values(|e: (String, String)| (e.0@, e.1@)) == self@.strings,
    {
        let mut r: Vec<(String, String)> = Vec::new();
        let mut i: usize = 0;
        while i < self.strings_definitions.len()
            invariant
                i <= self.strings_definitions@.len(),
                r@.map_values(|e: (String, String)| (e.0@, e.1@)) == self@.strings.take(i as int),
            decreases self.strings_definitions@.len() - i,
        {
            let ghost before = r@.map_values(|e: (String, String)| (e.0@, e.1@));
            let k = self.strings_definitions[i].0.clone();
            let d = self.strings_definitions[i].1.clone();
            r.push((k, d));
            assert(r@.map_values(|e: (String, String)| (e.0@, e.1@)) =~= before.push(self@.strings[i as int]));
            assert(self@.strings.take(i + 1) =~= self@.strings.take(i as int).push(self@.strings[i as int]));
            i = i + 1;
        }
        assert(self@.strings.take(i as int) =~= self@.strings);
        r
    }
}

} // verus!
