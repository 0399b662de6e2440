//! The parameter text that the host hands to every plugin: `key=value`
//! settings separated by commas and/or white space.
//!
//! The text is cut into fields at every comma and every white-space
//! character (the Unicode `White_Space` property, as `char::is_whitespace`
//! has it). A field is a setting when it holds an `=`: the key is what stands
//! before the first `=`, the value what stands after it. Fields without `=`
//! (the empty ones among them) are skipped. Since no field holds white space,
//! trimming a field, a key or a value changes nothing.

use vstd::prelude::*;

verus! {

/// The characters with the Unicode `White_Space` property.
pub open spec fn is_white_space(c: char) -> bool {
    ||| ('\u{9}' <= c && c <= '\u{D}')
    ||| c == ' '
    ||| c == '\u{85}'
    ||| c == '\u{A0}'
    ||| c == '\u{1680}'
    ||| ('\u{2000}' <= c && c <= '\u{200A}')
    ||| c == '\u{2028}'
    ||| c == '\u{2029}'
    ||| c == '\u{202F}'
    ||| c == '\u{205F}'
    ||| c == '\u{3000}'
}

/// A character at which the parameter text is cut into fields.
pub open spec fn is_separator(c: char) -> bool {
    c == ',' || is_white_space(c)
}

/// The fields of `s`: the pieces between separators, empty ones included,
/// so that `n` separators give `n + 1` fields.
pub open spec fn fields(s: Seq<char>) -> Seq<Seq<char>>
    decreases s.len(),
{
    if s.len() == 0 {
        seq![Seq::<char>::empty()]
    } else {
        let f = fields(s.drop_last());
        if is_separator(s.last()) {
            f.push(Seq::<char>::empty())
        } else {
            f.update(f.len() - 1, f.last().push(s.last()))
        }
    }
}

/// `i` is the position of the first `=` in `t`.
pub open spec fn is_first_eq(t: Seq<char>, i: int) -> bool {
    &&& 0 <= i < t.len()
    &&& t[i] == '='
    &&& forall|j: int| 0 <= j < i ==> t[j] != '='
}

/// A field cut at its first `=` into key and value; `None` when it has no `=`.
pub open spec fn split_setting(t: Seq<char>) -> Option<(Seq<char>, Seq<char>)> {
    if exists|i: int| is_first_eq(t, i) {
        let i = choose|i: int| is_first_eq(t, i);
        Some((t.take(i), t.skip(i + 1)))
    } else {
        None
    }
}

/// The settings among a list of fields, in order.
pub open spec fn settings_of(fs: Seq<Seq<char>>) -> Seq<(Seq<char>, Seq<char>)>
    decreases fs.len(),
{
    if fs.len() == 0 {
        Seq::empty()
    } else {
        let rest = settings_of(fs.drop_last());
        match split_setting(fs.last()) {
            Some(kv) => rest.push(kv),
            None => rest,
        }
    }
}

/// The `(key, value)` settings of a parameter text, in the order they appear.
pub open spec fn settings(s: Seq<char>) -> Seq<(Seq<char>, Seq<char>)> {
    settings_of(fields(s))
}

/// One setting, as executable data.
pub struct Setting {
    pub key: Vec<char>,
    pub value: Vec<char>,
}

impl View for Setting {
    type V = (Seq<char>, Seq<char>);

    open spec fn view(&self) -> (Seq<char>, Seq<char>) {
        (self.key@, self.value@)
    }
}

/// Whether `c` has the Unicode `White_Space` property.
pub fn is_white_space_char(c: char) -> (r: bool)
    ensures
        r == is_white_space(c),
{
    ('\u{9}' <= c && c <= '\u{D}') || c == ' ' || c == '\u{85}' || c == '\u{A0}' || c == '\u{1680}'
        || ('\u{2000}' <= c && c <= '\u{200A}') || c == '\u{2028}' || c == '\u{2029}' || c
        == '\u{202F}' || c == '\u{205F}' || c == '\u{3000}'
}


/// Cuts a field at its first `=` into a setting; `None` when it has no `=`.
pub fn split_field(field: &Vec<char>) -> (r: Option<Setting>)
    ensures
        match r {
            Some(st) => split_setting(field@) == Some(st@),
            None => split_setting(field@) is None,
        },
{
    let n = field.len();
    let mut i: usize = 0;
    while i < n
        invariant
            n == field@.len(),
            i <= n,
            forall|j: int| 0 <= j < i ==> field@[j] != '=',
        decreases n - i,
    {
        if field[i] == '=' {
            let mut key: Vec<char> = Vec::new();
            let mut k: usize = 0;
            while k < i
                invariant
                    i < n == field@.len(),
                    k <= i,
                    key@ == field@.take(k as int),
                decreases i - k,
            {
                key.push(field[k]);
                k = k + 1;
                assert(key@ =~= field@.take(k as int));
            }
            let mut value: Vec<char> = Vec::new();
            let mut m: usize = i + 1;
            while m < n
                invariant
                    i < n == field@.len(),
                    i + 1 <= m <= n,
                    value@ == field@.subrange(i + 1, m as int),
                decreases n - m,
            {
                value.push(field[m]);
                m = m + 1;
                assert(value@ =~= field@.subrange(i + 1, m as int));
            }
            proof {
                assert(is_first_eq(field@, i as int));
                let c = choose|c: int| is_first_eq(field@, c);
                assert(c == i) by {
                    if c < i {
                        assert(field@[c] != '=');
                    } else if c > i {
                        assert(field@[i as int] != '=');
                    }
                }
                assert(field@.skip(i + 1) =~= field@.subrange(i + 1, n as int));
            }
            return Some(Setting { key, value });
        }
        i = i + 1;
    }
    None
}

/// Proof that cutting one more character onto a text extends its fields as
/// [`fields`] says.
proof fn lemma_fields_step(s: Seq<char>, i: int)
    requires
        0 <= i < s.len(),
    ensures
        fields(s.take(i + 1)) == ({
            let f = fields(s.take(i));
            if is_separator(s[i]) {
                f.push(Seq::<char>::empty())
            } else {
                f.update(f.len() - 1, f.last().push(s[i]))
            }
        }),
{
    assert(s.take(i + 1).drop_last() =~= s.take(i));
}

/// Every list of fields is non-empty.
proof fn lemma_fields_nonempty(s: Seq<char>)
    ensures
        fields(s).len() >= 1,
    decreases s.len(),
{
    if s.len() > 0 {
        lemma_fields_nonempty(s.drop_last());
    }
}

/// The settings of a parameter text, in order.
pub fn settings_from_text(input: &str) -> (r: Vec<Setting>)
    ensures
        r@.len() == settings(input@).len(),
        forall|k: int| 0 <= k < r@.len() ==> #[trigger] r@[k]@ == settings(input@)[k],
{
    let ghost s = input@;
    let n = input.unicode_len();
    let mut out: Vec<Setting> = Vec::new();
    let mut cur: Vec<char> = Vec::new();
    let ghost mut done: Seq<Seq<char>> = Seq::empty();
    let mut i: usize = 0;
    proof {
        assert(s.take(0) =~= Seq::<char>::empty());
    }
    while i < n
        invariant
            n == s.len(),
            s == input@,
            i <= n,
            fields(s.take(i as int)) == done.push(cur@),
            out@.len() == settings_of(done).len(),
            forall|k: int| 0 <= k < out@.len() ==> #[trigger] out@[k]@ == settings_of(done)[k],
        decreases n - i,
    {
        let c = input.get_char(i);
        proof {
            lemma_fields_step(s, i as int);
        }
        if c == ',' || is_white_space_char(c) {
            let ghost old_done = done;
            let ghost old_out = out@;
            match split_field(&cur) {
                Some(st) => {
                    out.push(st);
                },
                None => {},
            }
            proof {
                done = old_done.push(cur@);
                assert(done.drop_last() =~= old_done);
                assert forall|k: int| 0 <= k < out@.len() implies #[trigger] out@[k]@
                    == settings_of(done)[k] by {
                    if k < old_out.len() {
                        assert(out@[k] == old_out[k]);
                    }
                }
            }
            cur = Vec::new();
            proof {
                assert(fields(s.take(i + 1)) =~= done.push(cur@));
            }
        } else {
            let ghost old_cur = cur@;
            cur.push(c);
            proof {
                let f = fields(s.take(i as int));
                assert(f.last() == old_cur);
                assert(fields(s.take(i + 1)) =~= done.push(cur@));
            }
        }
        i = i + 1;
    }
    let ghost old_out = out@;
    let ghost old_done = done;
    match split_field(&cur) {
        Some(st) => {
            out.push(st);
        },
        None => {},
    }
    proof {
        assert(s.take(n as int) =~= s);
        done = old_done.push(cur@);
        assert(done.drop_last() =~= old_done);
        assert forall|k: int| 0 <= k < out@.len() implies #[trigger] out@[k]@
            == settings_of(done)[k] by {
            if k < old_out.len() {
                assert(out@[k] == old_out[k]);
            }
        }
    }
    out
}


/// An ASCII decimal digit.
pub open spec fn is_digit(c: char) -> bool {
    '0' <= c && c <= '9'
}

/// The number a digit character stands for.
pub open spec fn digit_value(c: char) -> int {
    c as int - '0' as int
}

/// The number that a string of decimal digits writes, most significant first.
pub open spec fn digits_value(d: Seq<char>) -> int
    decreases d.len(),
{
    if d.len() == 0 {
        0
    } else {
        digits_value(d.drop_last()) * 10 + digit_value(d.last())
    }
}

/// The text without its leading `+` sign, if it has one.
pub open spec fn unsigned_part(s: Seq<char>) -> Seq<char> {
    if s.len() > 0 && s[0] == '+' {
        s.drop_first()
    } else {
        s
    }
}

/// What `str::parse::<u32>` accepts: an optional `+` followed by at least one
/// ASCII digit and nothing else, whose value fits in a `u32`.
pub open spec fn parse_u32_spec(s: Seq<char>) -> Option<u32> {
    let d = unsigned_part(s);
    if d.len() > 0 && (forall|i: int| 0 <= i < d.len() ==> is_digit(#[trigger] d[i]))
        && digits_value(d) <= u32::MAX {
        Some(digits_value(d) as u32)
    } else {
        None
    }
}

/// A string of digits writes a number no smaller than any of its prefixes.
proof fn lemma_digits_value_prefix(d: Seq<char>, k: int)
    requires
        0 <= k <= d.len(),
        forall|i: int| 0 <= i < d.len() ==> is_digit(#[trigger] d[i]),
    ensures
        0 <= digits_value(d.take(k)) <= digits_value(d),
    decreases d.len(),
{
    if k == d.len() {
        assert(d.take(k) =~= d);
        lemma_digits_value_nonneg(d);
    } else {
        let p = d.drop_last();
        assert(p.take(k) =~= d.take(k));
        lemma_digits_value_prefix(p, k);
        lemma_digits_value_nonneg(p);
        assert(is_digit(d[d.len() - 1]));
    }
}

proof fn lemma_digits_value_nonneg(d: Seq<char>)
    requires
        forall|i: int| 0 <= i < d.len() ==> is_digit(#[trigger] d[i]),
    ensures
        0 <= digits_value(d),
    decreases d.len(),
{
    if d.len() > 0 {
        let p = d.drop_last();
        assert forall|i: int| 0 <= i < p.len() implies is_digit(#[trigger] p[i]) by {
            assert(p[i] == d[i]);
        }
        lemma_digits_value_nonneg(p);
        assert(is_digit(d[d.len() - 1]));
    }
}

/// Reads an unsigned 32-bit decimal number as `str::parse::<u32>` does.
pub fn parse_u32(s: &Vec<char>) -> (r: Option<u32>)
    ensures
        r == parse_u32_spec(s@),
{
    let n = s.len();
    let mut i: usize = 0;
    if n > 0 && s[0] == '+' {
        i = 1;
    }
    let ghost d = unsigned_part(s@);
    assert(d =~= s@.skip(i as int));
    if i == n {
        return None;
    }
    let mut acc: u64 = 0;
    let start = i;
    while i < n
        invariant
            start < n == s@.len(),
            start <= i <= n,
            d == s@.skip(start as int),
            d == unsigned_part(s@),
            forall|j: int| 0 <= j < i - start ==> is_digit(#[trigger] d[j]),
            acc == digits_value(d.take(i - start)),
            acc <= u32::MAX,
        decreases n - i,
    {
        let c = s[i];
        if !('0' <= c && c <= '9') {
            proof {
                assert(d[i - start] == c);
                assert(!is_digit(d[i - start]));
                assert(!(forall|j: int| 0 <= j < d.len() ==> is_digit(#[trigger] d[j])));
            }
            return None;
        }
        let dv: u64 = if c == '0' {
            0
        } else if c == '1' {
            1
        } else if c == '2' {
            2
        } else if c == '3' {
            3
        } else if c == '4' {
            4
        } else if c == '5' {
            5
        } else if c == '6' {
            6
        } else if c == '7' {
            7
        } else if c == '8' {
            8
        } else {
            9
        };
        assert(dv == digit_value(c));
        let ghost k = i - start;
        assert(d.take(k + 1).drop_last() =~= d.take(k));
        assert(d[k] == c);
        assert(d.take(k + 1).last() == c);
        acc = acc * 10 + dv;
        assert(acc == digits_value(d.take(k + 1)));
        i = i + 1;
        if acc > 0xffff_ffff {
            proof {
                if forall|j: int| 0 <= j < d.len() ==> is_digit(#[trigger] d[j]) {
                    lemma_digits_value_prefix(d, k + 1);
                }
                assert(parse_u32_spec(s@) is None);
            }
            return None;
        }
    }
    assert(d.take(n - start) =~= d);
    Some(acc as u32)
}

/// Whether the characters of `key` are those of `word`.
pub fn is_word(key: &Vec<char>, word: &str) -> (r: bool)
    ensures
        r == (key@ == word@),
{
    let n = word.unicode_len();
    if key.len() != n {
        return false;
    }
    let mut i: usize = 0;
    while i < n
        invariant
            n == word@.len() == key@.len(),
            i <= n,
            forall|j: int| 0 <= j < i ==> key@[j] == word@[j],
        decreases n - i,
    {
        if key[i] != word.get_char(i) {
            return false;
        }
        i = i + 1;
    }
    assert(key@ =~= word@);
    true
}


/// `t` holds no comma and no white space, so it stays within one field.
pub open spec fn no_separator(t: Seq<char>) -> bool {
    forall|i: int| 0 <= i < t.len() ==> !is_separator(#[trigger] t[i])
}

/// Characters that are no separators extend the last field.
proof fn lemma_fields_extend(u: Seq<char>, t: Seq<char>)
    requires
        no_separator(t),
    ensures
        fields(u + t) == fields(u).update(fields(u).len() - 1, fields(u).last() + t),
    decreases t.len(),
{
    lemma_fields_nonempty(u);
    if t.len() == 0 {
        assert(u + t =~= u);
        assert(fields(u).last() + t =~= fields(u).last());
        assert(fields(u).update(fields(u).len() - 1, fields(u).last() + t) =~= fields(u));
    } else {
        let t0 = t.drop_last();
        assert(no_separator(t0)) by {
            assert forall|i: int| 0 <= i < t0.len() implies !is_separator(#[trigger] t0[i]) by {
                assert(t0[i] == t[i]);
            }
        }
        lemma_fields_extend(u, t0);
        assert((u + t).drop_last() =~= u + t0);
        assert((u + t).last() == t.last());
        assert(!is_separator(t[t.len() - 1]));
        let f0 = fields(u);
        assert((f0.last() + t0).push(t.last()) =~= f0.last() + t);
        assert(fields(u + t) =~= f0.update(f0.len() - 1, f0.last() + t));
    }
}

/// A character that neither is a comma nor has the Unicode `White_Space`
/// property.
pub open spec fn plain_char(c: char) -> bool {
    c != ',' && !is_white_space(c)
}

/// A setting `k=v` written after a comma, or after any character with the
/// Unicode `White_Space` property (CR, LF, tab, space, NBSP, ...), at the end
/// of a parameter text is its last setting, after the settings that the text
/// had before.
pub proof fn lemma_setting_after_separator(s: Seq<char>, sep: char, k: Seq<char>, v: Seq<char>)
    requires
        sep == ',' || is_white_space(sep),
        forall|i: int| 0 <= i < k.len() ==> plain_char(#[trigger] k[i]) && k[i] != '=',
        forall|i: int| 0 <= i < v.len() ==> plain_char(#[trigger] v[i]),
    ensures
        settings(s + seq![sep] + k + seq!['='] + v) == settings(s).push((k, v)),
{
    let u = s + seq![sep];
    let t = k + seq!['='] + v;
    assert(no_separator(k) && no_separator(v)) by {
        assert forall|i: int| 0 <= i < k.len() implies !is_separator(#[trigger] k[i]) by {
            assert(plain_char(k[i]));
        }
        assert forall|i: int| 0 <= i < v.len() implies !is_separator(#[trigger] v[i]) by {
            assert(plain_char(v[i]));
        }
    }
    assert(no_separator(t)) by {
        assert forall|i: int| 0 <= i < t.len() implies !is_separator(#[trigger] t[i]) by {
            if i < k.len() {
                assert(t[i] == k[i]);
            } else if i > k.len() {
                assert(t[i] == v[i - k.len() - 1]);
            }
        }
    }
    assert(u.drop_last() =~= s);
    assert(fields(u) == fields(s).push(Seq::<char>::empty()));
    lemma_fields_extend(u, t);
    assert(s + seq![sep] + k + seq!['='] + v =~= u + t);
    assert(Seq::<char>::empty() + t =~= t);
    assert(fields(u + t) =~= fields(s).push(t));
    assert(fields(s).push(t).drop_last() =~= fields(s));
    let i = k.len() as int;
    assert(is_first_eq(t, i)) by {
        assert forall|j: int| 0 <= j < i implies t[j] != '=' by {
            assert(t[j] == k[j]);
            if k[j] == '=' {
                assert(k.contains('='));
            }
        }
    }
    let c = choose|c: int| is_first_eq(t, c);
    assert(c == i) by {
        if c < i {
            assert(t[c] != '=');
        } else if c > i {
            assert(t[i] != '=');
        }
    }
    assert(t.take(i) =~= k);
    assert(t.skip(i + 1) =~= v);
}



/// A setting `k=v` written after a comma at the end of a parameter text is
/// its last setting, after the settings that the text had before; so a
/// later setting of a key is read after, and overrides, the earlier ones.
pub proof fn lemma_setting_appended(s: Seq<char>, k: Seq<char>, v: Seq<char>)
    requires
        no_separator(k),
        no_separator(v),
        !k.contains('='),
    ensures
        settings(s + seq![','] + k + seq!['='] + v) == settings(s).push((k, v)),
{
    assert forall|i: int| 0 <= i < k.len() implies plain_char(#[trigger] k[i]) && k[i] != '=' by {
        assert(!is_separator(k[i]));
        if k[i] == '=' {
            assert(k.contains('='));
        }
    }
    assert forall|i: int| 0 <= i < v.len() implies plain_char(#[trigger] v[i]) by {
        assert(!is_separator(v[i]));
    }
    lemma_setting_after_separator(s, ',', k, v);
}

/// No field holds a comma or white space; so trimming white space off a
/// field, or off the key or the value cut from it, leaves it as it is.
pub proof fn lemma_fields_have_no_separator(s: Seq<char>)
    ensures
        forall|i: int| 0 <= i < fields(s).len() ==> no_separator(#[trigger] fields(s)[i]),
    decreases s.len(),
{
    if s.len() > 0 {
        let p = s.drop_last();
        lemma_fields_have_no_separator(p);
        lemma_fields_nonempty(p);
        let f = fields(p);
        if !is_separator(s.last()) {
            let l = f.last().push(s.last());
            assert(no_separator(l)) by {
                assert forall|j: int| 0 <= j < l.len() implies !is_separator(#[trigger] l[j]) by {
                    if j < l.len() - 1 {
                        assert(l[j] == f.last()[j]);
                        assert(no_separator(f[f.len() - 1]));
                    }
                }
            }
        }
    }
}


/// All characters of `t` are plain: no comma, no white space.
pub open spec fn all_plain(t: Seq<char>) -> bool {
    forall|j: int| 0 <= j < t.len() ==> #[trigger] plain_char(t[j])
}

proof fn lemma_no_separator_plain(t: Seq<char>)
    requires
        no_separator(t),
    ensures
        all_plain(t),
{
    assert forall|j: int| 0 <= j < t.len() implies #[trigger] plain_char(t[j]) by {
        assert(!is_separator(t[j]));
    }
}

proof fn lemma_settings_of_plain(fs: Seq<Seq<char>>)
    requires
        forall|i: int| 0 <= i < fs.len() ==> no_separator(#[trigger] fs[i]),
    ensures
        forall|i: int|
            0 <= i < settings_of(fs).len() ==> all_plain(#[trigger] settings_of(fs)[i].0) && all_plain(
                settings_of(fs)[i].1,
            ),
    decreases fs.len(),
{
    if fs.len() > 0 {
        let p = fs.drop_last();
        assert forall|i: int| 0 <= i < p.len() implies no_separator(#[trigger] p[i]) by {
            assert(p[i] == fs[i]);
        }
        lemma_settings_of_plain(p);
        let t = fs.last();
        assert(no_separator(fs[fs.len() - 1]));
        lemma_no_separator_plain(t);
        match split_setting(t) {
            Some(kv) => {
                let i = choose|i: int| is_first_eq(t, i);
                assert(all_plain(t.take(i))) by {
                    assert forall|j: int| 0 <= j < t.take(i).len() implies #[trigger] plain_char(
                        t.take(i)[j],
                    ) by {
                        assert(t.take(i)[j] == t[j]);
                    }
                }
                assert(all_plain(t.skip(i + 1))) by {
                    assert forall|j: int| 0 <= j < t.skip(i + 1).len() implies #[trigger] plain_char(
                        t.skip(i + 1)[j],
                    ) by {
                        assert(t.skip(i + 1)[j] == t[i + 1 + j]);
                    }
                }
                let rest = settings_of(p);
                let all = settings_of(fs);
                assert(all == rest.push((t.take(i), t.skip(i + 1))));
                assert forall|m: int| 0 <= m < all.len() implies all_plain(#[trigger] all[m].0)
                    && all_plain(all[m].1) by {
                    if m < rest.len() {
                        assert(all[m] == rest[m]);
                    }
                }
            },
            None => {
                assert(settings_of(fs) == settings_of(p));
            },
        }
    }
}

/// Settings split the text at every comma and at every character with the
/// Unicode `White_Space` property: no key and no value of a setting holds
/// one.
pub proof fn lemma_settings_are_plain(s: Seq<char>)
    ensures
        forall|i: int|
            0 <= i < settings(s).len() ==> all_plain(#[trigger] settings(s)[i].0) && all_plain(
                settings(s)[i].1,
            ),
{
    lemma_fields_have_no_separator(s);
    lemma_settings_of_plain(fields(s));
    let all = settings_of(fields(s));
    assert forall|i: int| 0 <= i < settings(s).len() implies all_plain(#[trigger] settings(s)[i].0)
        && all_plain(settings(s)[i].1) by {
        assert(settings(s)[i] == all[i]);
    }
}


/// A field without `=` is no setting: writing one after a comma or white
/// space at the end of a text adds no setting.
pub proof fn lemma_field_without_equals_skipped(s: Seq<char>, sep: char, t: Seq<char>)
    requires
        sep == ',' || is_white_space(sep),
        forall|i: int| 0 <= i < t.len() ==> plain_char(#[trigger] t[i]) && t[i] != '=',
    ensures
        settings(s + seq![sep] + t) == settings(s),
{
    let u = s + seq![sep];
    assert(no_separator(t)) by {
        assert forall|i: int| 0 <= i < t.len() implies !is_separator(#[trigger] t[i]) by {
            assert(plain_char(t[i]));
        }
    }
    assert(u.drop_last() =~= s);
    assert(fields(u) == fields(s).push(Seq::<char>::empty()));
    lemma_fields_extend(u, t);
    assert(Seq::<char>::empty() + t =~= t);
    assert(fields(u + t) =~= fields(s).push(t));
    assert(fields(s).push(t).drop_last() =~= fields(s));
    assert(!exists|i: int| is_first_eq(t, i));
}

/// The key of a setting holds no `=`: a field is cut at its first `=`.
pub proof fn lemma_keys_hold_no_equals(s: Seq<char>)
    ensures
        forall|i: int| 0 <= i < settings(s).len() ==> !(#[trigger] settings(s)[i]).0.contains('='),
{
    lemma_keys_of_hold_no_equals(fields(s));
    assert forall|i: int| 0 <= i < settings(s).len() implies !(#[trigger] settings(s)[i]).0.contains(
        '=',
    ) by {
        assert(settings(s)[i] == settings_of(fields(s))[i]);
    }
}

proof fn lemma_keys_of_hold_no_equals(fs: Seq<Seq<char>>)
    ensures
        forall|i: int| 0 <= i < settings_of(fs).len() ==> !(#[trigger] settings_of(fs)[i]).0.contains('='),
    decreases fs.len(),
{
    if fs.len() > 0 {
        let p = fs.drop_last();
        lemma_keys_of_hold_no_equals(p);
        let t = fs.last();
        let rest = settings_of(p);
        let all = settings_of(fs);
        match split_setting(t) {
            Some(kv) => {
                let i = choose|i: int| is_first_eq(t, i);
                assert(!t.take(i).contains('=')) by {
                    if t.take(i).contains('=') {
                        let j = choose|j: int| 0 <= j < t.take(i).len() && t.take(i)[j] == '=';
                        assert(t[j] == '=');
                    }
                }
                assert(all == rest.push((t.take(i), t.skip(i + 1))));
                assert forall|m: int| 0 <= m < all.len() implies !(#[trigger] all[m]).0.contains('=') by {
                    if m < rest.len() {
                        assert(all[m] == rest[m]);
                    }
                }
            },
            None => {
                assert(all == rest);
            },
        }
    }
}

/// A single digit reads as its value.
pub proof fn lemma_parse_u32_digit(c: char)
    requires
        '0' <= c <= '9',
    ensures
        parse_u32_spec(seq![c]) == Some((c as u32 - '0' as u32) as u32),
{
    let d = seq![c];
    assert(d.drop_last() =~= Seq::<char>::empty());
    assert(d[0] == c);
    assert(unsigned_part(d) == d);
    assert(digits_value(d) == digits_value(d.drop_last()) * 10 + digit_value(d.last()));
    assert(digits_value(d) == c as int - '0' as int);
    assert(forall|i: int| 0 <= i < d.len() ==> is_digit(#[trigger] d[i]));
}

/// Writing one more digit after a number that reads as `n` gives the number
/// `10 * n + d`, when that fits in a `u32`, and no number otherwise.
pub proof fn lemma_parse_u32_next_digit(s: Seq<char>, c: char, n: u32)
    requires
        parse_u32_spec(s) == Some(n),
        '0' <= c <= '9',
    ensures
        parse_u32_spec(s.push(c)) == if 10 * n + (c as int - '0' as int) <= u32::MAX {
            Some((10 * n + (c as int - '0' as int)) as u32)
        } else {
            None
        },
{
    let d = unsigned_part(s);
    let d2 = unsigned_part(s.push(c));
    if s.len() > 0 && s[0] == '+' {
        assert(d2 =~= d.push(c));
    } else {
        assert(d2 =~= d.push(c));
    }
    assert(d2.drop_last() =~= d);
    assert forall|i: int| 0 <= i < d2.len() implies is_digit(#[trigger] d2[i]) by {
        if i < d.len() {
            assert(d2[i] == d[i]);
        }
    }
    assert(d2.last() == c);
    assert(digits_value(d2) == digits_value(d) * 10 + digit_value(c));
    lemma_digits_value_nonneg(d);
    assert(n == digits_value(d));
    assert(d2.len() > 0);
}

/// A leading `+` is accepted once: `+` followed by digits reads as the
/// digits do; a text holding any character other than digits (and one
/// leading `+`) is no number; the empty text and a lone `+` are no number.
pub proof fn lemma_parse_u32_form(d: Seq<char>)
    requires
        d.len() > 0,
        d[0] != '+',
    ensures
        parse_u32_spec(seq!['+'] + d) == parse_u32_spec(d),
        (exists|i: int| 0 <= i < d.len() && !('0' <= #[trigger] d[i] <= '9')) ==> parse_u32_spec(d)
            is None,
        parse_u32_spec(Seq::<char>::empty()) is None,
        parse_u32_spec(seq!['+']) is None,
{
    assert((seq!['+'] + d).drop_first() =~= d);
    assert(seq!['+'].drop_first() =~= Seq::<char>::empty());
}

} // verus!
