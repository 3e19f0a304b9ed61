//! Note records and the filename rules: titles, extensions,
//! sanitization, collision resolution, and the decisions behind the
//! create / save / delete / import operations.  Callers do the file
//! I/O; every decision here is a function of plain values.

use crate::MemoError;
use crate::ext;
use crate::sidecar::{AssocList, PinEntry, PinEntryV, spec_pinned, spec_pinned_at};
use crate::strutil::{
    append_chars, chars_of, dec_digits, dec_int, filter_chars, filter_vec, find_last, i64_to_chars,
    is_forbidden_char, last_index_of, take_at_most, trim_chars, trim_vec, truncate_vec,
    u64_to_chars,
};
use vstd::prelude::*;

verus! {

/// Mathematical view of a note record.
pub ghost struct NoteV {
    pub filename: Seq<char>,
    pub title: Seq<char>,
    pub content: Seq<char>,
    pub created_at: Seq<char>,
    pub updated_at: Seq<char>,
    pub pinned: bool,
    pub pinned_at: Option<Seq<char>>,
}

/// One note as the UI sees it: the file, its content, its filesystem
/// timestamps (UTC, RFC 3339 text), and its pin state.
pub struct MemoMetadata {
    pub filename: String,
    pub title: String,
    pub content: String,
    pub created_at: String,
    pub updated_at: String,
    pub pinned: bool,
    pub pinned_at: Option<String>,
}

impl View for MemoMetadata {
    type V = NoteV;

    open spec fn view(&self) -> NoteV {
        NoteV {
            filename: self.filename@,
            title: self.title@,
            content: self.content@,
            created_at: self.created_at@,
            updated_at: self.updated_at@,
            pinned: self.pinned,
            pinned_at: match self.pinned_at {
                Option::Some(s) => Some(s@),
                Option::None => None,
            },
        }
    }
}

/// What the caller reads off one file before the core builds a record:
/// name, content, and the two timestamps (creation falling back to
/// modification where the platform cannot report it).
pub struct NoteFile {
    pub filename: String,
    pub content: String,
    pub created_at: String,
    pub updated_at: String,
}

/// The creation timestamp is best effort: where the platform cannot
/// report one, the modification timestamp stands in.
pub fn resolve_created_at(created: Option<String>, modified: &String) -> (r: String)
    ensures
        r@ == match created {
            Option::Some(c) => c@,
            Option::None => modified@,
        },
{
    match created {
        Some(c) => c,
        None => modified.clone(),
    }
}

/// `s` ends with the characters of `suf`.
pub open spec fn ends_with(s: Seq<char>, suf: Seq<char>) -> bool {
    s.len() >= suf.len() && s.skip(s.len() - suf.len()) == suf
}

/// The title a filename displays as: one trailing `.md` or `.txt`
/// removed (the longer match first), anything else left whole.
pub open spec fn spec_title_of(f: Seq<char>) -> Seq<char> {
    if ends_with(f, seq!['.', 't', 'x', 't']) {
        f.take(f.len() - 4)
    } else if ends_with(f, seq!['.', 'm', 'd']) {
        f.take(f.len() - 3)
    } else {
        f
    }
}

fn has_txt_suffix(s: &str) -> (r: bool)
    ensures
        r == ends_with(s@, seq!['.', 't', 'x', 't']),
{
    let n = s.unicode_len();
    if n < 4 {
        return false;
    }
    let r = s.get_char(n - 4) == '.' && s.get_char(n - 3) == 't' && s.get_char(n - 2) == 'x'
        && s.get_char(n - 1) == 't';
    proof {
        if r {
            assert(s@.skip(n - 4) =~= seq!['.', 't', 'x', 't']);
        } else if s@.skip(n - 4) == seq!['.', 't', 'x', 't'] {
            assert(s@[n - 4] == '.' && s@[n - 3] == 't' && s@[n - 2] == 'x' && s@[n - 1] == 't');
        }
    }
    r
}

fn has_md_suffix(s: &str) -> (r: bool)
    ensures
        r == ends_with(s@, seq!['.', 'm', 'd']),
{
    let n = s.unicode_len();
    if n < 3 {
        return false;
    }
    let r = s.get_char(n - 3) == '.' && s.get_char(n - 2) == 'm' && s.get_char(n - 1) == 'd';
    proof {
        if r {
            assert(s@.skip(n - 3) =~= seq!['.', 'm', 'd']);
        } else if s@.skip(n - 3) == seq!['.', 'm', 'd'] {
            assert(s@[n - 3] == '.' && s@[n - 2] == 'm' && s@[n - 1] == 'd');
        }
    }
    r
}

/// The display title of a filename.
pub fn title_of_filename(filename: &str) -> (r: String)
    ensures
        r@ == spec_title_of(filename@),
{
    let n = filename.unicode_len();
    if has_txt_suffix(filename) {
        filename.substring_char(0, n - 4).to_owned()
    } else if has_md_suffix(filename) {
        filename.substring_char(0, n - 3).to_owned()
    } else {
        proof {
            assert(filename@.subrange(0, n as int) =~= filename@);
        }
        filename.substring_char(0, n).to_owned()
    }
}

/// The extension of an ordinary directory-entry name: the part after
/// the last dot, provided the dot is not the leading character.
pub open spec fn spec_extension_of(f: Seq<char>) -> Option<Seq<char>> {
    match last_index_of(f, '.') {
        Some(p) => if p >= 1 {
            Some(f.skip(p + 1))
        } else {
            None
        },
        None => None,
    }
}

/// The stem that goes with `spec_extension_of`: the part before that
/// dot, or the whole name.
pub open spec fn spec_stem_of(f: Seq<char>) -> Seq<char> {
    match last_index_of(f, '.') {
        Some(p) => if p >= 1 {
            f.take(p)
        } else {
            f
        },
        None => f,
    }
}

/// A directory entry is a note exactly when its extension is `md` or
/// `txt`, case-sensitively.
pub open spec fn spec_is_note_filename(f: Seq<char>) -> bool {
    spec_extension_of(f) == Some(seq!['m', 'd']) || spec_extension_of(f) == Some(
        seq!['t', 'x', 't'],
    )
}

/// The extension and stem of a name, as executable code.
fn split_extension(f: &str) -> (r: (Option<Vec<char>>, Vec<char>))
    ensures
        match r.0 {
            Some(e) => spec_extension_of(f@) == Some(e@),
            None => spec_extension_of(f@) == None::<Seq<char>>,
        },
        r.1@ == spec_stem_of(f@),
{
    let cs = chars_of(f);
    let n = cs.len();
    match find_last(&cs, '.') {
        Some(p) => {
            assert(p < n);
            if p >= 1 {
                let mut ext: Vec<char> = Vec::new();
                let mut i: usize = p + 1;
                while i < cs.len()
                    invariant
                        p + 1 <= i <= cs@.len(),
                        ext@ =~= cs@.subrange(p + 1, i as int),
                    decreases cs@.len() - i,
                {
                    ext.push(cs[i]);
                    i = i + 1;
                }
                let mut stem: Vec<char> = Vec::new();
                let mut j: usize = 0;
                while j < p
                    invariant
                        j <= p < cs@.len(),
                        stem@ =~= cs@.subrange(0, j as int),
                    decreases p - j,
                {
                    stem.push(cs[j]);
                    j = j + 1;
                }
                proof {
                    assert(ext@ =~= f@.skip(p + 1));
                    assert(stem@ =~= f@.take(p as int));
                }
                (Some(ext), stem)
            } else {
                (None, cs)
            }
        },
        None => (None, cs),
    }
}

fn chars_eq_md(v: &Vec<char>) -> (r: bool)
    ensures
        r == (v@ == seq!['m', 'd']),
{
    let r = v.len() == 2 && v[0] == 'm' && v[1] == 'd';
    proof {
        if r {
            assert(v@ =~= seq!['m', 'd']);
        }
    }
    r
}

fn chars_eq_txt(v: &Vec<char>) -> (r: bool)
    ensures
        r == (v@ == seq!['t', 'x', 't']),
{
    let r = v.len() == 3 && v[0] == 't' && v[1] == 'x' && v[2] == 't';
    proof {
        if r {
            assert(v@ =~= seq!['t', 'x', 't']);
        }
    }
    r
}

/// Whether a directory entry belongs in the listing.
pub fn is_note_filename(f: &str) -> (r: bool)
    ensures
        r == spec_is_note_filename(f@),
{
    let (ext, _stem) = split_extension(f);
    match ext {
        Some(e) => chars_eq_md(&e) || chars_eq_txt(&e),
        None => false,
    }
}

/// Builds the note record for one file against a pin-store snapshot:
/// title from the filename, pin state by exact filename lookup, absent
/// entries reading as unpinned.
pub open spec fn spec_build_note(
    filename: Seq<char>,
    content: Seq<char>,
    created_at: Seq<char>,
    updated_at: Seq<char>,
    pins: Map<Seq<char>, PinEntryV>,
) -> NoteV {
    NoteV {
        filename,
        title: spec_title_of(filename),
        content,
        created_at,
        updated_at,
        pinned: spec_pinned(pins, filename),
        pinned_at: spec_pinned_at(pins, filename),
    }
}

/// Assembles one note record from a file and the pin store.
pub fn build_memo_metadata(
    filename: String,
    content: String,
    created_at: String,
    updated_at: String,
    pins: &AssocList<PinEntry>,
) -> (r: MemoMetadata)
    requires
        pins.wf(),
    ensures
        r@ == spec_build_note(filename@, content@, created_at@, updated_at@, pins@),
{
    let title = title_of_filename(filename.as_str());
    let (pinned, pinned_at) = match pins.get(&filename) {
        Some(e) => (
            e.pinned,
            match &e.pinned_at {
                Some(t) => Some(t.clone()),
                None => None,
            },
        ),
        None => (false, None),
    };
    MemoMetadata { filename, title, content, created_at, updated_at, pinned, pinned_at }
}

/// The first line of a text: everything before the first line feed,
/// with a trailing carriage return dropped.
pub open spec fn spec_first_line(s: Seq<char>) -> Seq<char>
    decreases s.len(),
{
    if s.len() == 0 {
        Seq::empty()
    } else if s[0] == '\n' {
        Seq::empty()
    } else {
        seq![s[0]] + spec_first_line(s.drop_first())
    }
}

/// A trailing carriage return dropped.
pub open spec fn spec_strip_cr(s: Seq<char>) -> Seq<char> {
    if s.len() > 0 && s[s.len() - 1] == '\r' {
        s.drop_last()
    } else {
        s
    }
}

/// Leading hash marks dropped.
pub open spec fn trim_start_hashes(s: Seq<char>) -> Seq<char>
    decreases s.len(),
{
    if s.len() > 0 && s[0] == '#' {
        trim_start_hashes(s.drop_first())
    } else {
        s
    }
}

/// A display title suggested by a note's content: its first line,
/// without a leading heading marker, trimmed.
pub open spec fn spec_extract_title(s: Seq<char>) -> Seq<char> {
    trim_chars(trim_start_hashes(spec_strip_cr(spec_first_line(s))))
}

proof fn lemma_first_line_take(s: Seq<char>, i: int)
    requires
        0 <= i <= s.len(),
        forall|j: int| 0 <= j < i ==> s[j] != '\n',
        i == s.len() || s[i] == '\n',
    ensures
        spec_first_line(s) == s.take(i),
    decreases i,
{
    if i == 0 {
        assert(s.take(0) =~= Seq::<char>::empty());
    } else {
        assert(s[0] != '\n');
        lemma_first_line_take(s.drop_first(), i - 1);
        assert(s.take(i) =~= seq![s[0]] + s.drop_first().take(i - 1));
    }
}

proof fn lemma_trim_hashes_skip(s: Seq<char>, i: int)
    requires
        0 <= i <= s.len(),
        forall|j: int| 0 <= j < i ==> s[j] == '#',
    ensures
        trim_start_hashes(s) == trim_start_hashes(s.skip(i)),
    decreases i,
{
    if i > 0 {
        assert(s[0] == '#');
        assert(s.drop_first() =~= s.skip(1));
        lemma_trim_hashes_skip(s.skip(1), i - 1);
        assert(s.skip(1).skip(i - 1) =~= s.skip(i));
    } else {
        assert(s.skip(0) =~= s);
    }
}

/// The title a note's content suggests: the first line, any leading
/// `#` heading marks removed, surrounding white space trimmed.
pub fn extract_title(content: &str) -> (r: String)
    ensures
        r@ == spec_extract_title(content@),
{
    let cs = chars_of(content);
    let n = cs.len();
    let mut i: usize = 0;
    while i < n && cs[i] != '\n'
        invariant
            n == cs@.len(),
            i <= n,
            forall|j: int| 0 <= j < i ==> cs@[j] != '\n',
        decreases n - i,
    {
        i = i + 1;
    }
    proof {
        lemma_first_line_take(cs@, i as int);
    }
    let end = if i > 0 && cs[i - 1] == '\r' {
        i - 1
    } else {
        i
    };
    proof {
        if i > 0 && cs@[i - 1] == '\r' {
            assert(cs@.take(i as int).drop_last() =~= cs@.take(i as int - 1));
        }
        assert(spec_strip_cr(spec_first_line(cs@)) == cs@.take(end as int));
    }
    let mut h: usize = 0;
    while h < end && cs[h] == '#'
        invariant
            end <= n,
            n == cs@.len(),
            h <= end,
            forall|j: int| 0 <= j < h ==> cs@[j] == '#',
        decreases end - h,
    {
        h = h + 1;
    }
    let ghost line = cs@.take(end as int);
    proof {
        assert(forall|j: int| 0 <= j < h ==> line[j] == '#');
        lemma_trim_hashes_skip(line, h as int);
        if h < end {
            assert(line.skip(h as int)[0] == cs@[h as int]);
        }
        assert(trim_start_hashes(line) == line.skip(h as int));
    }
    let mut body: Vec<char> = Vec::new();
    let mut k: usize = h;
    while k < end
        invariant
            h <= k <= end <= n,
            n == cs@.len(),
            body@ =~= cs@.subrange(h as int, k as int),
        decreases end - k,
    {
        body.push(cs[k]);
        k = k + 1;
    }
    proof {
        assert(body@ =~= line.skip(h as int));
    }
    let trimmed = trim_vec(&body);
    ext::chars_to_string(&trimmed)
}

/// A title after sanitization, before the empty-title fallback:
/// forbidden characters dropped, white space trimmed from the ends,
/// truncated to 200 characters.
pub open spec fn spec_sanitize_core(s: Seq<char>) -> Seq<char> {
    take_at_most(trim_chars(filter_chars(s, |c: char| !is_forbidden_char(c))), 200)
}

/// The generated stand-in for a title that sanitizes to nothing: the
/// words "untitled memo" in Japanese, an underscore, and a Unix
/// timestamp.
pub open spec fn spec_placeholder_title(ts: int) -> Seq<char> {
    seq!['\u{7121}', '\u{984c}', '\u{306e}', '\u{30e1}', '\u{30e2}', '_'] + dec_int(ts)
}

/// Turns a title into a filename-safe string: strips the characters
/// disallowed on common filesystems, trims surrounding white space,
/// substitutes a generated timestamped name when nothing is left, and
/// truncates to 200 characters.  Never empty.
pub fn sanitize_filename(title: &str) -> (r: String)
    ensures
        spec_sanitize_core(title@).len() > 0 ==> r@ == spec_sanitize_core(title@),
        spec_sanitize_core(title@).len() == 0 ==> (exists|ts: int|
            r@ == spec_placeholder_title(ts)),
        r@.len() > 0,
{
    let cs = chars_of(title);
    let filtered = filter_vec(&cs);
    let trimmed = trim_vec(&filtered);
    if trimmed.len() == 0 {
        let ts = ext::unix_timestamp_now();
        let digits = i64_to_chars(ts);
        proof {
            reveal_strlit("\u{7121}\u{984c}\u{306e}\u{30e1}\u{30e2}_");
        }
        let mut out = chars_of("\u{7121}\u{984c}\u{306e}\u{30e1}\u{30e2}_");
        proof {
            assert(out@ =~= seq!['\u{7121}', '\u{984c}', '\u{306e}', '\u{30e1}', '\u{30e2}', '_']);
        }
        append_chars(&mut out, &digits);
        let r = ext::chars_to_string(&out);
        proof {
            assert(r@ == spec_placeholder_title(ts as int));
        }
        r
    } else {
        let t = truncate_vec(trimmed, 200);
        ext::chars_to_string(&t)
    }
}

/// Some listed name has exactly these characters.
pub open spec fn name_taken(existing: Seq<Seq<char>>, name: Seq<char>) -> bool {
    exists|i: int| 0 <= i < existing.len() && existing[i] == name
}

/// The views of a list of names.
pub open spec fn name_views(existing: Seq<String>) -> Seq<Seq<char>> {
    existing.map_values(|s: String| s@)
}

/// Whether `name` appears among `existing`.
pub fn contains_name(existing: &Vec<String>, name: &String) -> (r: bool)
    ensures
        r == name_taken(name_views(existing@), name@),
{
    let mut i: usize = 0;
    while i < existing.len()
        invariant
            i <= existing@.len(),
            forall|j: int| 0 <= j < i ==> name_views(existing@)[j] != name@,
        decreases existing@.len() - i,
    {
        if existing[i] == *name {
            assert(name_views(existing@)[i as int] == name@);
            return true;
        }
        i = i + 1;
    }
    false
}

/// The `k`-th filename tried when resolving a collision for
/// `base.ext`: the bare name first, then `base_1.ext`, `base_2.ext`, …
pub open spec fn spec_candidate(base: Seq<char>, ext_: Seq<char>, k: int) -> Seq<char> {
    if k == 0 {
        base + seq!['.'] + ext_
    } else {
        base + seq!['_'] + dec_digits(k as nat) + seq!['.'] + ext_
    }
}

/// `name` is the first collision-free candidate for `base.ext_`: some
/// candidate with suffix `k ≤ 999` that no listed file uses, while
/// every earlier candidate is taken.
pub open spec fn spec_first_free(
    existing: Seq<Seq<char>>,
    base: Seq<char>,
    ext_: Seq<char>,
    name: Seq<char>,
) -> bool {
    exists|k: int|
        0 <= k <= 999 && name == spec_candidate(base, ext_, k) && !name_taken(
            existing,
            spec_candidate(base, ext_, k),
        ) && (forall|j: int| 0 <= j < k ==> name_taken(existing, spec_candidate(base, ext_, j)))
}

/// Every candidate for `base.ext_`, through suffix 999, is taken.
pub open spec fn spec_all_candidates_taken(
    existing: Seq<Seq<char>>,
    base: Seq<char>,
    ext_: Seq<char>,
) -> bool {
    forall|k: int| 0 <= k <= 999 ==> name_taken(existing, spec_candidate(base, ext_, k))
}

fn candidate_name(base: &Vec<char>, ext_: &Vec<char>, k: usize) -> (r: String)
    ensures
        r@ == spec_candidate(base@, ext_@, k as int),
{
    let mut v: Vec<char> = Vec::new();
    append_chars(&mut v, base);
    if k > 0 {
        v.push('_');
        let d = u64_to_chars(k as u64);
        append_chars(&mut v, &d);
    }
    v.push('.');
    append_chars(&mut v, ext_);
    proof {
        if k > 0 {
            assert(v@ =~= base@ + seq!['_'] + dec_digits(k as nat) + seq!['.'] + ext_@);
        } else {
            assert(v@ =~= base@ + seq!['.'] + ext_@);
        }
    }
    ext::chars_to_string(&v)
}

/// Finds a free filename for `base_name.ext` in the listed directory:
/// the bare name if free, else the first numeric suffix from 1 to 999;
/// past that the suffix budget is exhausted.
pub fn resolve_unique_filename(existing: &Vec<String>, base_name: &str, ext_: &str) -> (r: Result<
    String,
    MemoError,
>)
    ensures
        match r {
            Ok(name) => spec_first_free(name_views(existing@), base_name@, ext_@, name@),
            Err(e) => e == MemoError::CapacityExceeded && spec_all_candidates_taken(
                name_views(existing@),
                base_name@,
                ext_@,
            ),
        },
{
    let base = chars_of(base_name);
    let ext_cs = chars_of(ext_);
    let c0 = candidate_name(&base, &ext_cs, 0);
    if !contains_name(existing, &c0) {
        return Ok(c0);
    }
    let mut k: usize = 1;
    while k <= 999
        invariant
            1 <= k <= 1000,
            base@ == base_name@,
            ext_cs@ == ext_@,
            forall|j: int|
                0 <= j < k ==> name_taken(
                    name_views(existing@),
                    spec_candidate(base_name@, ext_@, j),
                ),
        decreases 1000 - k,
    {
        let c = candidate_name(&base, &ext_cs, k);
        if !contains_name(existing, &c) {
            return Ok(c);
        }
        k = k + 1;
    }
    Err(MemoError::CapacityExceeded)
}

/// The characters of the default note extension.
fn md_chars() -> (r: Vec<char>)
    ensures
        r@ == seq!['m', 'd'],
{
    proof {
        reveal_strlit("md");
    }
    let v = chars_of("md");
    proof {
        assert(v@ =~= seq!['m', 'd']);
    }
    v
}

/// The extension a saved note keeps: the previous filename's, or `md`
/// when there is no previous filename or it has no extension.
pub open spec fn spec_save_ext(old_filename: Option<Seq<char>>) -> Seq<char> {
    match old_filename {
        Some(o) => match spec_extension_of(o) {
            Some(e) => e,
            None => seq!['m', 'd'],
        },
        None => seq!['m', 'd'],
    }
}

/// What a save decides: the resulting filename, whether an old file
/// must be deleted (the name changed), and whether the order store
/// changed and so must be persisted.
pub struct SaveOutcome {
    pub filename: String,
    pub delete_old: bool,
    pub order_changed: bool,
}

/// Decides a save: the new filename is the sanitized title with the
/// previous extension (default `md`); when the name changes, the old
/// file goes and its order rank migrates to the new name.  The caller
/// writes the content under the new name either way.
pub fn save_memo(
    title: &str,
    old_filename: Option<&String>,
    order: &mut AssocList<usize>,
) -> (r: SaveOutcome)
    requires
        old(order).wf(),
    ensures
        final(order).wf(),
        ({
            let core = spec_sanitize_core(title@);
            let ext_ = spec_save_ext(
                match old_filename {
                    Some(o) => Some(o@),
                    None => None,
                },
            );
            &&& core.len() > 0 ==> r.filename@ == core + seq!['.'] + ext_
            &&& core.len() == 0 ==> exists|ts: int|
                r.filename@ == spec_placeholder_title(ts) + seq!['.'] + ext_
        }),
        r.delete_old == match old_filename {
            Some(o) => o@ != r.filename@,
            None => false,
        },
        r.order_changed == (r.delete_old && match old_filename {
            Some(o) => old(order)@.contains_key(o@),
            None => false,
        }),
        r.order_changed ==> match old_filename {
            Some(o) => final(order)@ == old(order)@.remove(o@).insert(
                r.filename@,
                old(order)@[o@],
            ),
            None => false,
        },
        !r.order_changed ==> final(order)@ == old(order)@,
{
    let sanitized = sanitize_filename(title);
    let mut name_cs = chars_of(sanitized.as_str());
    name_cs.push('.');
    let ext_cs = match old_filename {
        Some(o) => {
            let (e, _stem) = split_extension(o.as_str());
            match e {
                Some(e) => e,
                None => md_chars(),
            }
        },
        None => md_chars(),
    };
    append_chars(&mut name_cs, &ext_cs);
    let new_filename = ext::chars_to_string(&name_cs);
    proof {
        assert(new_filename@ =~= sanitized@ + seq!['.'] + ext_cs@);
    }
    match old_filename {
        Some(o) => {
            if *o != new_filename {
                let changed = order.migrate(o, &new_filename);
                SaveOutcome { filename: new_filename, delete_old: true, order_changed: changed }
            } else {
                SaveOutcome { filename: new_filename, delete_old: false, order_changed: false }
            }
        },
        None => SaveOutcome { filename: new_filename, delete_old: false, order_changed: false },
    }
}

/// Decides a delete: whether there is a file to remove.  An absent
/// filename is not an error; there is simply nothing to do.
pub fn delete_memo(existing: &Vec<String>, filename: &String) -> (r: bool)
    ensures
        r == name_taken(name_views(existing@), filename@),
{
    contains_name(existing, filename)
}

/// The title tried on the `k`-th collision retry of a create: the
/// generated title with `_k` appended.
pub open spec fn spec_suffixed_title(title: Seq<char>, k: int) -> Seq<char> {
    title + seq!['_'] + dec_digits(k as nat)
}

/// Creates a note titled `title` (already generated from the clock):
/// picks the first of `title`, `title_2`, `title_3`, … whose sanitized
/// filename is free, and returns that filename with the title it came
/// from.
pub fn create_memo_with_title(existing: &Vec<String>, title: &String, ext_: &str) -> (r: Result<
    (String, String),
    MemoError,
>)
    ensures
        match r {
            Ok(p) => {
                &&& !name_taken(name_views(existing@), p.0@)
                &&& (p.1@ == title@ || ({
                    &&& spec_sanitize_core(title@).len() > 0 ==> name_taken(
                        name_views(existing@),
                        spec_sanitize_core(title@) + seq!['.'] + ext_@,
                    )
                    &&& exists|k: int|
                        2 <= k && p.1@ == spec_suffixed_title(title@, k) && (forall|j: int|
                            2 <= j < k ==> (spec_sanitize_core(
                                spec_suffixed_title(title@, j),
                            ).len() > 0 ==> name_taken(
                                name_views(existing@),
                                spec_sanitize_core(spec_suffixed_title(title@, j)) + seq!['.']
                                    + ext_@,
                            )))
                }))
                &&& spec_sanitize_core(p.1@).len() > 0 ==> p.0@ == spec_sanitize_core(p.1@)
                    + seq!['.'] + ext_@
                &&& spec_sanitize_core(p.1@).len() == 0 ==> exists|ts: int|
                    p.0@ == spec_placeholder_title(ts) + seq!['.'] + ext_@
            },
            Err(e) => {
                &&& e == MemoError::CapacityExceeded
                &&& spec_sanitize_core(title@).len() > 0 ==> name_taken(
                    name_views(existing@),
                    spec_sanitize_core(title@) + seq!['.'] + ext_@,
                )
                &&& forall|k: int|
                    2 <= k <= existing@.len() + 2 && k <= usize::MAX - 1 ==> (
                    spec_sanitize_core(spec_suffixed_title(title@, k)).len() > 0 ==> name_taken(
                        name_views(existing@),
                        spec_sanitize_core(spec_suffixed_title(title@, k)) + seq!['.'] + ext_@,
                    ))
            },
        },
        existing@.len() == 0 ==> r is Ok,
{
    let ext_cs = chars_of(ext_);
    let sanitized = sanitize_filename(title.as_str());
    let mut f_cs = chars_of(sanitized.as_str());
    f_cs.push('.');
    append_chars(&mut f_cs, &ext_cs);
    let filename = ext::chars_to_string(&f_cs);
    proof {
        assert(filename@ =~= sanitized@ + seq!['.'] + ext_@);
    }
    if !contains_name(existing, &filename) {
        return Ok((filename, title.clone()));
    }
    let title_cs = chars_of(title.as_str());
    let mut k: usize = 2;
    let bound = if existing.len() < usize::MAX - 3 {
        existing.len() + 2
    } else {
        usize::MAX - 1
    };
    while k <= bound
        invariant
            2 <= k <= bound + 1,
            bound <= usize::MAX - 1,
            existing@.len() < usize::MAX - 3 ==> bound == existing@.len() + 2,
            existing@.len() >= usize::MAX - 3 ==> bound == usize::MAX - 1,
            title_cs@ == title@,
            ext_cs@ == ext_@,
            spec_sanitize_core(title@).len() > 0 ==> name_taken(
                name_views(existing@),
                spec_sanitize_core(title@) + seq!['.'] + ext_@,
            ),
            forall|j: int|
                2 <= j < k ==> (spec_sanitize_core(spec_suffixed_title(title@, j)).len() > 0
                    ==> name_taken(
                    name_views(existing@),
                    spec_sanitize_core(spec_suffixed_title(title@, j)) + seq!['.'] + ext_@,
                )),
        decreases bound + 1 - k,
    {
        let mut t_cs: Vec<char> = Vec::new();
        append_chars(&mut t_cs, &title_cs);
        t_cs.push('_');
        let digits = u64_to_chars(k as u64);
        append_chars(&mut t_cs, &digits);
        let t = ext::chars_to_string(&t_cs);
        proof {
            assert(t@ =~= spec_suffixed_title(title@, k as int));
        }
        let san = sanitize_filename(t.as_str());
        let mut c_cs = chars_of(san.as_str());
        c_cs.push('.');
        append_chars(&mut c_cs, &ext_cs);
        let cand = ext::chars_to_string(&c_cs);
        proof {
            assert(cand@ =~= san@ + seq!['.'] + ext_@);
        }
        if !contains_name(existing, &cand) {
            proof {
                assert(t@ == spec_suffixed_title(title@, k as int));
                assert(exists|j: int|
                    2 <= j && t@ == spec_suffixed_title(title@, j) && (forall|i: int|
                        2 <= i < j ==> (spec_sanitize_core(spec_suffixed_title(title@, i)).len()
                            > 0 ==> name_taken(
                            name_views(existing@),
                            spec_sanitize_core(spec_suffixed_title(title@, i)) + seq!['.']
                                + ext_@,
                        )))) by {
                    assert(forall|i: int|
                        2 <= i < k ==> (spec_sanitize_core(spec_suffixed_title(title@, i)).len()
                            > 0 ==> name_taken(
                            name_views(existing@),
                            spec_sanitize_core(spec_suffixed_title(title@, i)) + seq!['.']
                                + ext_@,
                        )));
                }
            }
            return Ok((cand, t));
        }
        proof {
            if spec_sanitize_core(t@).len() > 0 {
                assert(cand@ == spec_sanitize_core(spec_suffixed_title(title@, k as int))
                    + seq!['.'] + ext_@);
            }
        }
        k = k + 1;
    }
    Err(MemoError::CapacityExceeded)
}

/// Creates a note: the title comes from the local clock, the extension
/// defaults to `md`, and name collisions get an incrementing numeric
/// suffix on the title itself.
pub fn create_memo(existing: &Vec<String>, extension: Option<&String>) -> (r: Result<
    (String, String),
    MemoError,
>)
    ensures
        ({
            let ext_e = match extension {
                Option::Some(e) => e@,
                Option::None => seq!['m', 'd'],
            };
            match r {
                Ok(p) => {
                    &&& !name_taken(name_views(existing@), p.0@)
                    &&& spec_sanitize_core(p.1@).len() > 0 ==> p.0@ == spec_sanitize_core(p.1@)
                        + seq!['.'] + ext_e
                    &&& spec_sanitize_core(p.1@).len() == 0 ==> exists|ts: int|
                        p.0@ == spec_placeholder_title(ts) + seq!['.'] + ext_e
                },
                Err(e) => e == MemoError::CapacityExceeded,
            }
        }),
        existing@.len() == 0 ==> r is Ok,
{
    let title = ext::local_now_title();
    match extension {
        Some(e) => create_memo_with_title(existing, &title, e.as_str()),
        None => {
            proof {
                reveal_strlit("md");
                assert("md"@ =~= seq!['m', 'd']);
            }
            create_memo_with_title(existing, &title, "md")
        },
    }
}

/// The final path component of a slash-separated path.
pub open spec fn spec_final_component(p: Seq<char>) -> Seq<char> {
    match last_index_of(p, '/') {
        Some(i) => p.skip(i + 1),
        None => p,
    }
}

fn final_component(p: &str) -> (r: Vec<char>)
    ensures
        r@ == spec_final_component(p@),
{
    let cs = chars_of(p);
    let n = cs.len();
    match find_last(&cs, '/') {
        Some(i) => {
            let mut out: Vec<char> = Vec::new();
            let mut j: usize = i + 1;
            while j < n
                invariant
                    i + 1 <= j <= n,
                    n == cs@.len(),
                    out@ =~= cs@.subrange(i + 1, j as int),
                decreases n - j,
            {
                out.push(cs[j]);
                j = j + 1;
            }
            proof {
                assert(out@ =~= p@.skip(i + 1));
            }
            out
        },
        None => cs,
    }
}

/// Decides an import of one source file picked by the caller: only
/// `.md` and `.txt` sources are accepted; the target name is the
/// sanitized stem with a collision-free suffix.  Returns the target
/// filename; the caller copies the content there.
pub fn import_single_file(source_path: &str, existing: &Vec<String>) -> (r: Result<
    String,
    MemoError,
>)
    ensures
        ({
            let comp = spec_final_component(source_path@);
            let is_note = spec_is_note_filename(comp);
            let ext_e = match spec_extension_of(comp) {
                Option::Some(e) => e,
                Option::None => seq!['m', 'd'],
            };
            let core = spec_sanitize_core(spec_stem_of(comp));
            match r {
                Ok(name) => {
                    &&& is_note
                    &&& core.len() > 0 ==> spec_first_free(
                        name_views(existing@),
                        core,
                        ext_e,
                        name@,
                    )
                    &&& core.len() == 0 ==> (exists|ts: int|
                        spec_first_free(
                            name_views(existing@),
                            spec_placeholder_title(ts),
                            ext_e,
                            name@,
                        ))
                },
                Err(e) => if !is_note {
                    e == MemoError::UnsupportedType
                } else {
                    e == MemoError::CapacityExceeded && (core.len() > 0
                        ==> spec_all_candidates_taken(name_views(existing@), core, ext_e))
                },
            }
        }),
{
    let comp = final_component(source_path);
    let comp_s = ext::chars_to_string(&comp);
    let (ext_opt, stem) = split_extension(comp_s.as_str());
    let is_md = match &ext_opt {
        Some(e) => chars_eq_md(e),
        None => false,
    };
    let is_txt = match &ext_opt {
        Some(e) => chars_eq_txt(e),
        None => false,
    };
    if !is_md && !is_txt {
        return Err(MemoError::UnsupportedType);
    }
    let ext_cs = match ext_opt {
        Some(e) => e,
        None => Vec::new(),
    };
    let stem_s = ext::chars_to_string(&stem);
    let sanitized = sanitize_filename(stem_s.as_str());
    let ghost core = spec_sanitize_core(spec_stem_of(spec_final_component(source_path@)));
    let ext_s = ext::chars_to_string(&ext_cs);
    match resolve_unique_filename(existing, sanitized.as_str(), ext_s.as_str()) {
        Ok(name) => {
            proof {
                if core.len() == 0 {
                    let ts = choose|t: int| sanitized@ == spec_placeholder_title(t);
                    assert(spec_first_free(
                        name_views(existing@),
                        spec_placeholder_title(ts),
                        ext_s@,
                        name@,
                    ));
                }
            }
            Ok(name)
        },
        Err(e) => Err(e),
    }
}

/// Decides an import whose bytes the caller already has (drag and
/// drop): the original filename goes through the same rules as a
/// picked source file — only `.md` and `.txt` are accepted, the
/// sanitized stem gives the base, and collisions get the first free
/// numeric suffix.
pub fn import_memo_from_content(original_filename: &str, existing: &Vec<String>) -> (r: Result<
    String,
    MemoError,
>)
    ensures
        ({
            let comp = spec_final_component(original_filename@);
            let is_note = spec_is_note_filename(comp);
            let ext_e = match spec_extension_of(comp) {
                Option::Some(e) => e,
                Option::None => seq!['m', 'd'],
            };
            let core = spec_sanitize_core(spec_stem_of(comp));
            match r {
                Ok(name) => {
                    &&& is_note
                    &&& core.len() > 0 ==> spec_first_free(
                        name_views(existing@),
                        core,
                        ext_e,
                        name@,
                    )
                    &&& core.len() == 0 ==> (exists|ts: int|
                        spec_first_free(
                            name_views(existing@),
                            spec_placeholder_title(ts),
                            ext_e,
                            name@,
                        ))
                },
                Err(e) => if !is_note {
                    e == MemoError::UnsupportedType
                } else {
                    e == MemoError::CapacityExceeded && (core.len() > 0
                        ==> spec_all_candidates_taken(name_views(existing@), core, ext_e))
                },
            }
        }),
{
    import_single_file(original_filename, existing)
}

} // verus!
