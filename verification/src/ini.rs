use vstd::prelude::*;

use crate::chars::chars_eq;
use crate::text::{find_from, lemma_find_from, lines_of, lowercase, lowercase_chars, slice_to_vec, split_lines, trim, trim_chars, trim_end, trim_end_chars};

verus! {

/// A stored setting: section, key, value.
pub type IniEntry = (Seq<char>, Seq<char>, Seq<char>);

/// Reader state: settings stored so far, current section, current key and
/// the value lines collected for it.
pub type IniState = (Seq<IniEntry>, Option<Seq<char>>, Option<Seq<char>>, Seq<Seq<char>>);

/// Lines joined with line feeds.
pub open spec fn join_lines(v: Seq<Seq<char>>) -> Seq<char>
    decreases v.len(),
{
    if v.len() == 0 {
        Seq::empty()
    } else if v.len() == 1 {
        v[0]
    } else {
        join_lines(v.drop_last()) + seq!['\n'] + v.last()
    }
}

/// Stores the pending setting (when there is both a section and a key) and
/// clears the key and its value lines.
pub open spec fn ini_flush(st: IniState) -> IniState {
    let e = if st.1 is Some && st.2 is Some { st.0.push((st.1->0, st.2->0, join_lines(st.3))) } else { st.0 };
    (e, st.1, None, Seq::empty())
}

/// `l` opens a section: after trailing white space it is `[`...`]`.
pub open spec fn is_section_header(l: Seq<char>) -> bool {
    let t = trim_end(l);
    t.len() >= 2 && t[0] == '[' && t.last() == ']'
}

/// The (lower-cased, trimmed) name of the section that `l` opens.
pub open spec fn section_name(l: Seq<char>) -> Seq<char> {
    let t = trim_end(l);
    lowercase(trim(t.subrange(1, t.len() - 1)))
}

/// `l` without its leading spaces and tabs.
pub open spec fn skip_indent(l: Seq<char>) -> Seq<char>
    decreases l.len(),
{
    if l.len() > 0 && (l[0] == ' ' || l[0] == '\t') { skip_indent(l.drop_first()) } else { l }
}

/// The reader state after one line.
///
/// A section header stores the pending setting and switches section. An
/// indented line continues the current value (when there is a current key),
/// adding its text when that is not empty. Blank lines and comments (`;` or
/// `#` first) are skipped. A line with a colon stores the pending setting
/// and starts a new key (lower-cased) with the text after the colon. Other
/// lines are ignored.
pub open spec fn ini_step(st: IniState, line: Seq<char>) -> IniState {
    if is_section_header(line) {
        let f = ini_flush(st);
        (f.0, Some(section_name(line)), None, Seq::empty())
    } else if line.len() > 0 && (line[0] == ' ' || line[0] == '\t') && st.2 is Some {
        let x = skip_indent(line);
        if x.len() > 0 { (st.0, st.1, st.2, st.3.push(x)) } else { st }
    } else {
        let t = trim(line);
        if t.len() == 0 || t[0] == ';' || t[0] == '#' {
            st
        } else {
            match find_from(line, ':', 0) {
                Some(p) => {
                    let f = ini_flush(st);
                    let v = trim(line.skip(p + 1));
                    (f.0, f.1, Some(lowercase(trim(line.take(p)))), if v.len() > 0 { seq![v] } else { Seq::empty() })
                },
                None => st,
            }
        }
    }
}

/// The reader state after the first `n` lines.
pub open spec fn ini_run(lines: Seq<Seq<char>>, n: nat) -> IniState
    decreases n,
{
    if n == 0 {
        (Seq::empty(), None, None, Seq::empty())
    } else {
        ini_step(ini_run(lines, (n - 1) as nat), lines[n - 1])
    }
}

/// The settings of an INI text, in the order they were completed.
pub open spec fn ini_entries(src: Seq<char>) -> Seq<IniEntry> {
    let ls = lines_of(src);
    ini_flush(ini_run(ls, ls.len())).0
}

/// The value of the last setting for `key` in `section`.
pub open spec fn ini_get(e: Seq<IniEntry>, section: Seq<char>, key: Seq<char>) -> Option<Seq<char>>
    decreases e.len(),
{
    if e.len() == 0 {
        None
    } else if e.last().0 == section && e.last().1 == key {
        Some(e.last().2)
    } else {
        ini_get(e.drop_last(), section, key)
    }
}

/// Whether any setting belongs to `section`.
pub open spec fn ini_has_section(e: Seq<IniEntry>, section: Seq<char>) -> bool {
    exists|i: int| 0 <= i < e.len() && (#[trigger] e[i]).0 == section
}

/// The sections of the settings, each once, in order of first appearance.
pub open spec fn ini_sections(e: Seq<IniEntry>) -> Seq<Seq<char>>
    decreases e.len(),
{
    if e.len() == 0 {
        Seq::empty()
    } else {
        let s = ini_sections(e.drop_last());
        if s.contains(e.last().0) { s } else { s.push(e.last().0) }
    }
}

/// Parsed settings of an INI text.
pub struct Ini {
    pub entries: Vec<(Vec<char>, Vec<char>, Vec<char>)>,
}

/// The plain view of stored settings.
pub open spec fn ini_view(v: Seq<(Vec<char>, Vec<char>, Vec<char>)>) -> Seq<IniEntry> {
    Seq::new(v.len(), |i: int| (v[i].0@, v[i].1@, v[i].2@))
}

impl Ini {
    pub open spec fn view_entries(&self) -> Seq<IniEntry> {
        ini_view(self.entries@)
    }

    /// The value of the last setting for `key` in `section`.
    pub fn get(&self, section: &[char], key: &[char]) -> (r: Option<&Vec<char>>)
        ensures
            match r {
                Some(v) => ini_get(self.view_entries(), section@, key@) == Some(v@),
                None => ini_get(self.view_entries(), section@, key@) is None,
            },
    {
        let ghost e = self.view_entries();
        let mut n: usize = self.entries.len();
        assert(e.take(n as int) =~= e);
        while n > 0
            invariant
                n <= e.len(),
                e == self.view_entries(),
                ini_get(e, section@, key@) == ini_get(e.take(n as int), section@, key@),
            decreases n,
        {
            let ent = &self.entries[n - 1];
            assert(e.take(n as int).last() == e[n - 1]);
            assert(e.take(n as int).drop_last() =~= e.take(n - 1));
            if chars_eq(ent.0.as_slice(), section) && chars_eq(ent.1.as_slice(), key) {
                return Some(&ent.2);
            }
            n = n - 1;
        }
        None
    }

    /// Whether any setting belongs to `section`.
    pub fn has_section(&self, section: &[char]) -> (r: bool)
        ensures
            r == ini_has_section(self.view_entries(), section@),
    {
        let ghost e = self.view_entries();
        let mut i: usize = 0;
        while i < self.entries.len()
            invariant
                i <= e.len(),
                e == self.view_entries(),
                forall|j: int| 0 <= j < i ==> (#[trigger] e[j]).0 != section@,
            decreases e.len() - i,
        {
            if chars_eq(self.entries[i].0.as_slice(), section) {
                assert(e[i as int].0 == section@);
                return true;
            }
            i = i + 1;
        }
        false
    }

    /// The sections, each once, in order of first appearance.
    pub fn sections(&self) -> (r: Vec<Vec<char>>)
        ensures
            r@.len() == ini_sections(self.view_entries()).len(),
            forall|i: int| 0 <= i < r@.len() ==> #[trigger] r@[i]@ == ini_sections(self.view_entries())[i],
    {
        let ghost e = self.view_entries();
        let mut r: Vec<Vec<char>> = Vec::new();
        let mut i: usize = 0;
        while i < self.entries.len()
            invariant
                i <= e.len(),
                e == self.view_entries(),
                r@.len() == ini_sections(e.take(i as int)).len(),
                forall|j: int| 0 <= j < r@.len() ==> #[trigger] r@[j]@ == ini_sections(e.take(i as int))[j],
            decreases e.len() - i,
        {
            let ghost s = ini_sections(e.take(i as int));
            assert(e.take(i + 1).drop_last() =~= e.take(i as int));
            assert(e.take(i + 1).last() == e[i as int]);
            let sec = &self.entries[i].0;
            let mut found = false;
            let mut j: usize = 0;
            while j < r.len()
                invariant
                    j <= r@.len(),
                    r@.len() == s.len(),
                    forall|q: int| 0 <= q < r@.len() ==> #[trigger] r@[q]@ == s[q],
                    found == (exists|q: int| 0 <= q < j && s[q] == sec@),
                decreases r@.len() - j,
            {
                if chars_eq(r[j].as_slice(), sec.as_slice()) {
                    found = true;
                }
                j = j + 1;
            }
            assert(found == s.contains(sec@));
            if !found {
                r.push(sec.clone());
            }
            i = i + 1;
        }
        assert(e.take(i as int) =~= e);
        r
    }
}

fn join_vec(v: &Vec<Vec<char>>) -> (r: Vec<char>)
    ensures
        r@ == join_lines(Seq::new(v@.len(), |i: int| v@[i]@)),
{
    let ghost vv = Seq::new(v@.len(), |i: int| v@[i]@);
    let mut r: Vec<char> = Vec::new();
    let mut i: usize = 0;
    while i < v.len()
        invariant
            vv == Seq::new(v@.len(), |i: int| v@[i]@),
            i <= v@.len(),
            r@ == join_lines(vv.take(i as int)),
        decreases v@.len() - i,
    {
        let ghost before = r@;
        if i > 0 {
            r.push('\n');
        }
        let w = &v[i];
        let mut j: usize = 0;
        let ghost mid = r@;
        while j < w.len()
            invariant
                j <= w@.len(),
                r@ == mid + w@.take(j as int),
            decreases w@.len() - j,
        {
            r.push(w[j]);
            j = j + 1;
            assert(r@ =~= mid + w@.take(j as int));
        }
        assert(w@.take(j as int) =~= w@);
        i = i + 1;
        assert(vv.take(i as int).drop_last() =~= vv.take(i - 1));
        if i == 1 {
            assert(r@ =~= join_lines(vv.take(i as int)));
        } else {
            assert(r@ =~= join_lines(vv.take(i as int)));
        }
    }
    assert(vv.take(i as int) =~= vv);
    r
}

/// Exec reader state.
struct IniReader {
    entries: Vec<(Vec<char>, Vec<char>, Vec<char>)>,
    section: Option<Vec<char>>,
    key: Option<Vec<char>>,
    values: Vec<Vec<char>>,
}

impl IniReader {
    spec fn state(&self) -> IniState {
        (
            ini_view(self.entries@),
            match self.section { Some(s) => Some(s@), None => None },
            match self.key { Some(k) => Some(k@), None => None },
            Seq::new(self.values@.len(), |i: int| self.values@[i]@),
        )
    }

    fn flush(&mut self)
        ensures
            final(self).state() == ini_flush(old(self).state()),
    {
        let ghost st = self.state();
        let key = self.key.take();
        match (&self.section, key) {
            (Some(sec), Some(k)) => {
                let value = join_vec(&self.values);
                let ghost old_entries = self.entries@;
                self.entries.push((sec.clone(), k, value));
                assert(ini_view(self.entries@) =~= ini_view(old_entries).push((sec@, st.2->0, value@)));
            }
            _ => {}
        }
        self.values = Vec::new();
        assert(self.state().3 =~= Seq::<Seq<char>>::empty());
    }
}

/// Index of the first `c` in `v`.
pub fn find_char(v: &[char], c: char) -> (r: Option<usize>)
    ensures
        match r {
            Some(i) => find_from(v@, c, 0) == Some(i as int),
            None => find_from(v@, c, 0) is None,
        },
{
    let mut i: usize = 0;
    proof {
        lemma_find_from(v@, c, 0);
    }
    while i < v.len()
        invariant
            i <= v@.len(),
            forall|j: int| 0 <= j < i ==> v@[j] != c,
        decreases v@.len() - i,
    {
        if v[i] == c {
            proof {
                lemma_find_from(v@, c, 0);
            }
            return Some(i);
        }
        i = i + 1;
    }
    proof {
        lemma_find_from(v@, c, 0);
    }
    None
}

fn skip_indent_chars(v: &[char]) -> (r: Vec<char>)
    ensures
        r@ == skip_indent(v@),
{
    let mut n: usize = 0;
    assert(v@.skip(0) =~= v@);
    while n < v.len() && (v[n] == ' ' || v[n] == '\t')
        invariant
            n <= v@.len(),
            skip_indent(v@) == skip_indent(v@.skip(n as int)),
        decreases v@.len() - n,
    {
        assert(v@.skip(n as int).drop_first() =~= v@.skip(n + 1));
        n = n + 1;
    }
    slice_to_vec(v, n, v.len())
}

impl IniReader {
    fn step(&mut self, line: &Vec<char>)
        ensures
            final(self).state() == ini_step(old(self).state(), line@),
    {
        let lt = trim_end_chars(line.as_slice());
        if lt.len() >= 2 && lt[0] == '[' && lt[lt.len() - 1] == ']' {
            self.flush();
            let inner = slice_to_vec(lt.as_slice(), 1, lt.len() - 1);
            let t = trim_chars(inner.as_slice());
            self.section = Some(lowercase_chars(t.as_slice()));
            assert(self.state().3 =~= Seq::<Seq<char>>::empty());
            return;
        }
        if line.len() > 0 && (line[0] == ' ' || line[0] == '\t') && self.key.is_some() {
            let x = skip_indent_chars(line.as_slice());
            if x.len() > 0 {
                let ghost before = self.state();
                self.values.push(x);
                assert(self.state().3 =~= before.3.push(x@));
            }
            return;
        }
        let t = trim_chars(line.as_slice());
        if t.len() == 0 || t[0] == ';' || t[0] == '#' {
            return;
        }
        match find_char(line.as_slice(), ':') {
            Some(p) => {
                proof {
                    lemma_find_from(line@, ':', 0);
                }
                self.flush();
                let kpart = slice_to_vec(line.as_slice(), 0, p);
                let kt = trim_chars(kpart.as_slice());
                let key = lowercase_chars(kt.as_slice());
                let vpart = slice_to_vec(line.as_slice(), p + 1, line.len());
                let val = trim_chars(vpart.as_slice());
                assert(kpart@ =~= line@.take(p as int));
                assert(vpart@ =~= line@.skip(p + 1));
                self.key = Some(key);
                if val.len() > 0 {
                    self.values.push(val);
                }
                assert(self.state().3 =~= (if val@.len() > 0 { seq![val@] } else { Seq::<Seq<char>>::empty() }));
            }
            None => {}
        }
    }
}

/// Minimal INI reader: `[section]` headers (lower-cased), `key: value`
/// settings (keys lower-cased), indented continuation lines, and `;` or `#`
/// comments. Settings outside any section are dropped.
pub fn parse_ini(src: &[char]) -> (r: Ini)
    ensures
        r.view_entries() == ini_entries(src@),
{
    let lines = split_lines(src);
    let ghost ls = lines_of(src@);
    let mut rd = IniReader { entries: Vec::new(), section: None, key: None, values: Vec::new() };
    assert(rd.state() =~= ini_run(ls, 0));
    let mut i: usize = 0;
    while i < lines.len()
        invariant
            ls == lines_of(src@),
            lines@.len() == ls.len(),
            forall|j: int| 0 <= j < lines@.len() ==> #[trigger] lines@[j]@ == ls[j],
            i <= lines@.len(),
            rd.state() == ini_run(ls, i as nat),
        decreases lines@.len() - i,
    {
        rd.step(&lines[i]);
        i = i + 1;
    }
    rd.flush();
    Ini { entries: rd.entries }
}

} // verus!
