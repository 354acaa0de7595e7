//! Level presets and the small textual parsers around them: the preset names
//! accepted on the command line and the `W,H` board-size syntax.

use vstd::prelude::*;
use vstd::std_specs::iter::IteratorSpec;

verus! {

broadcast use vstd::string::next_postcondition, vstd::string::axiom_spec_iter;

/// Preset level styles.
#[derive(Clone, Copy, Debug, PartialEq, Eq, Structural)]
pub enum LevelPreset {
    Beginner,
    Intermediate,
    Advanced,
}

impl Default for LevelPreset {
    fn default() -> (r: Self)
        ensures
            r == LevelPreset::Beginner,
    {
        LevelPreset::Beginner
    }
}

impl LevelPreset {
    /// The preset's board dimensions.
    pub fn board_size(&self) -> (r: (u32, u32))
        ensures
            r == match self {
                LevelPreset::Beginner => (9u32, 9u32),
                LevelPreset::Intermediate => (16u32, 16u32),
                LevelPreset::Advanced => (24u32, 24u32),
            },
    {
        match self {
            LevelPreset::Beginner => (9, 9),
            LevelPreset::Intermediate => (16, 16),
            LevelPreset::Advanced => (24, 24),
        }
    }

    /// The preset's mine count.
    pub fn num_mines(&self) -> (r: u32)
        ensures
            r == match self {
                LevelPreset::Beginner => 10u32,
                LevelPreset::Intermediate => 40u32,
                LevelPreset::Advanced => 99u32,
            },
    {
        match self {
            LevelPreset::Beginner => 10,
            LevelPreset::Intermediate => 40,
            LevelPreset::Advanced => 99,
        }
    }

    /// Reads a preset from its menu number or its name, ASCII case
    /// unregarded. Any other text is rejected with a usage message.
    pub fn from_str(s: &str) -> (r: Result<LevelPreset, String>)
        ensures
            (r == Ok::<LevelPreset, String>(LevelPreset::Beginner)) <==> (eq_ignoring_case(
                s@,
                "1"@,
            ) || eq_ignoring_case(s@, "beginner"@)),
            (r == Ok::<LevelPreset, String>(LevelPreset::Intermediate)) <==> (eq_ignoring_case(
                s@,
                "2"@,
            ) || eq_ignoring_case(s@, "intermediate"@)),
            (r == Ok::<LevelPreset, String>(LevelPreset::Advanced)) <==> (eq_ignoring_case(
                s@,
                "3"@,
            ) || eq_ignoring_case(s@, "advanced"@)),
            r is Err ==> r->Err_0@ == "level must be one of 1,2,3,beginner,intermediate,advanced"@,
    {
        let cs = chars_of(s);
        if eq_ic(&cs, &chars_of("1")) || eq_ic(&cs, &chars_of("beginner")) {
            proof {
                lemma_menu_words_start_apart(s@);
            }
            return Ok(LevelPreset::Beginner);
        }
        if eq_ic(&cs, &chars_of("2")) || eq_ic(&cs, &chars_of("intermediate")) {
            proof {
                lemma_menu_words_start_apart(s@);
            }
            return Ok(LevelPreset::Intermediate);
        }
        if eq_ic(&cs, &chars_of("3")) || eq_ic(&cs, &chars_of("advanced")) {
            proof {
                lemma_menu_words_start_apart(s@);
            }
            return Ok(LevelPreset::Advanced);
        }
        Err("level must be one of 1,2,3,beginner,intermediate,advanced".to_owned())
    }
}

/// The six menu words all begin with distinct letters (case unregarded), so a
/// string matches at most one of them.
proof fn lemma_menu_words_start_apart(s: Seq<char>)
    ensures
        eq_ignoring_case(s, "1"@) ==> lower_code(s[0]) == 49,
        eq_ignoring_case(s, "2"@) ==> lower_code(s[0]) == 50,
        eq_ignoring_case(s, "3"@) ==> lower_code(s[0]) == 51,
        eq_ignoring_case(s, "beginner"@) ==> lower_code(s[0]) == 98,
        eq_ignoring_case(s, "intermediate"@) ==> lower_code(s[0]) == 105,
        eq_ignoring_case(s, "advanced"@) ==> lower_code(s[0]) == 97,
{
    reveal_strlit("1");
    reveal_strlit("2");
    reveal_strlit("3");
    reveal_strlit("beginner");
    reveal_strlit("intermediate");
    reveal_strlit("advanced");
}

/// A character's code with ASCII uppercase folded to lowercase.
pub open spec fn lower_code(c: char) -> int {
    if 65 <= c as u32 <= 90 {
        c as u32 + 32
    } else {
        c as u32 as int
    }
}

/// ASCII-case-insensitive equality of character sequences.
pub open spec fn eq_ignoring_case(a: Seq<char>, b: Seq<char>) -> bool {
    a.len() == b.len() && forall|i: int| 0 <= i < a.len() ==> lower_code(a[i]) == lower_code(b[i])
}

/// Collects the characters of a string slice.
fn chars_of(s: &str) -> (r: Vec<char>)
    ensures
        r@ == s@,
{
    let mut it = s.chars();
    let mut v: Vec<char> = Vec::new();
    loop
        invariant_except_break
            it.decrease() is Some,
            v@ + it.remaining() == s@,
        ensures
            v@ == s@,
        decreases it.decrease()->0,
    {
        match it.next() {
            Some(c) => {
                v.push(c);
                proof {
                    assert(v@ + it.remaining() =~= s@);
                }
            },
            None => {
                proof {
                    assert(v@ + it.remaining() =~= v@);
                }
                break ;
            },
        }
    }
    v
}

/// ASCII-case-insensitive comparison of two character vectors.
#[verifier::loop_isolation(false)]
fn eq_ic(a: &Vec<char>, b: &Vec<char>) -> (r: bool)
    ensures
        r == eq_ignoring_case(a@, b@),
{
    if a.len() != b.len() {
        return false;
    }
    let n = a.len();
    let mut i: usize = 0;
    while i < n
        invariant
            i <= n,
            forall|j: int| 0 <= j < i ==> lower_code(a@[j]) == lower_code(b@[j]),
        decreases n - i,
    {
        let cai = a[i];
        let cbi = b[i];
        let ca = cai as u32;
        let cb = cbi as u32;
        let la = if ca >= 65 && ca <= 90 {
            ca + 32
        } else {
            ca
        };
        let lb = if cb >= 65 && cb <= 90 {
            cb + 32
        } else {
            cb
        };
        if la != lb {
            return false;
        }
        i = i + 1;
    }
    true
}

/// `i` is where the first comma stands, or the length when there is none.
pub open spec fn first_comma_at(s: Seq<char>, i: int) -> bool {
    &&& 0 <= i <= s.len()
    &&& forall|j: int| 0 <= j < i ==> s[j] != ','
    &&& (i == s.len() || s[i] == ',')
}

pub open spec fn spec_is_digit(c: char) -> bool {
    48 <= c as u32 <= 57
}

/// The number the digit characters of `s` spell in base ten.
pub open spec fn digits_num(s: Seq<char>) -> int
    decreases s.len(),
{
    if s.len() == 0 {
        0
    } else {
        digits_num(s.drop_last()) * 10 + (s.last() as u32 - 48)
    }
}

/// The digits of unsigned-number text: everything after an optional `+`.
pub open spec fn digits_part(s: Seq<char>) -> Seq<char> {
    if s.len() > 0 && s[0] == '+' {
        s.skip(1)
    } else {
        s
    }
}

/// `s` is unsigned-number text: an optional leading `+`, then at least one
/// digit, spelling a value that fits in a `u32`.
pub open spec fn u32_text(s: Seq<char>) -> bool {
    &&& digits_part(s).len() > 0
    &&& forall|i: int|
        0 <= i < digits_part(s).len() ==> spec_is_digit(#[trigger] digits_part(s)[i])
    &&& digits_num(digits_part(s)) <= u32::MAX
}

/// The value that `u32_text` text spells.
pub open spec fn text_num(s: Seq<char>) -> int {
    digits_num(digits_part(s))
}

proof fn lemma_digits_nonneg(s: Seq<char>)
    requires
        forall|i: int| 0 <= i < s.len() ==> spec_is_digit(#[trigger] s[i]),
    ensures
        digits_num(s) >= 0,
    decreases s.len(),
{
    if s.len() > 0 {
        assert(forall|i: int| 0 <= i < s.len() - 1 ==> s.drop_last()[i] == s[i]);
        lemma_digits_nonneg(s.drop_last());
    }
}

/// Digit text never spells less than any of its prefixes.
proof fn lemma_digits_prefix_le(s: Seq<char>, j: int)
    requires
        forall|i: int| 0 <= i < s.len() ==> spec_is_digit(#[trigger] s[i]),
        0 <= j <= s.len(),
    ensures
        digits_num(s.take(j)) <= digits_num(s),
    decreases s.len() - j,
{
    if j == s.len() {
        assert(s.take(j) =~= s);
    } else {
        lemma_digits_prefix_le(s, j + 1);
        assert(s.take(j + 1).drop_last() =~= s.take(j));
        assert(digits_num(s.take(j + 1)) == digits_num(s.take(j)) * 10 + (s[j] as u32 - 48));
        assert(forall|i: int| 0 <= i < j ==> s.take(j)[i] == s[i]);
        lemma_digits_nonneg(s.take(j));
    }
}

/// Parses the characters `v[start..end]` as a `u32`: an optional `+`, then at
/// least one digit, rejecting overflow.
#[verifier::loop_isolation(false)]
fn parse_u32(v: &Vec<char>, start: usize, end: usize) -> (r: Option<u32>)
    requires
        start <= end <= v@.len(),
    ensures
        r is Some <==> u32_text(v@.subrange(start as int, end as int)),
        r is Some ==> r->0 as int == text_num(v@.subrange(start as int, end as int)),
{
    let ghost seg = v@.subrange(start as int, end as int);
    let mut p = start;
    if p < end && v[p] == '+' {
        p = p + 1;
    }
    let ghost digits = v@.subrange(p as int, end as int);
    proof {
        if seg.len() > 0 && seg[0] == '+' {
            assert(seg.skip(1) =~= digits);
        } else {
            assert(seg =~= digits);
        }
        assert(digits_part(seg) == digits);
    }
    if p == end {
        return None;
    }
    let mut val: u32 = 0;
    let mut k = p;
    while k < end
        invariant
            p <= k <= end,
            forall|i: int| p <= i < k ==> spec_is_digit(#[trigger] v@[i]),
            val as int == digits_num(v@.subrange(p as int, k as int)),
        decreases end - k,
    {
        let ck = v[k];
        let cu = ck as u32;
        if cu < 48 || cu > 57 {
            proof {
                assert(!spec_is_digit(digits[k - p]));
            }
            return None;
        }
        let d = cu - 48;
        proof {
            assert(spec_is_digit(v@[k as int]));
            assert(v@.subrange(p as int, k + 1).drop_last() =~= v@.subrange(p as int, k as int));
            assert(v@.subrange(p as int, k + 1).last() == v@[k as int]);
            assert(digits_num(v@.subrange(p as int, k + 1)) == digits_num(
                v@.subrange(p as int, k as int),
            ) * 10 + (v@[k as int] as u32 - 48));
        }
        let next = match val.checked_mul(10) {
            Some(t) => t.checked_add(d),
            None => None,
        };
        val = match next {
            Some(t) => t,
            None => {
                proof {
                    let pre = v@.subrange(p as int, k + 1);
                    assert(digits_num(pre) > u32::MAX);
                    if u32_text(seg) {
                        assert(forall|i: int|
                            0 <= i < digits.len() ==> spec_is_digit(#[trigger] digits[i]));
                        lemma_digits_prefix_le(digits, k + 1 - p);
                        assert(digits.take(k + 1 - p) =~= pre);
                        assert(false);
                    }
                }
                return None;
            },
        };
        k = k + 1;
    }
    proof {
        assert(v@.subrange(p as int, end as int) =~= digits);
        lemma_digits_nonneg(digits);
    }
    Some(val)
}

/// Reads a board size from `W,H` text (a missing height, as in plain `W`,
/// defaults to 9; text after a second comma is ignored). Each part is an
/// unsigned number with an optional `+`, as `u32` text has it; anything else
/// is rejected with a usage message.
#[verifier::loop_isolation(false)]
pub fn board_size_from_str(s: &str) -> (r: Result<(u32, u32), String>)
    ensures
        forall|i: int|
            first_comma_at(s@, i) ==> {
                let xs = s@.take(i);
                if i == s@.len() {
                    match r {
                        Ok(p) => u32_text(xs) && p.0 as int == text_num(xs) && p.1 == 9u32,
                        Err(_) => !u32_text(xs),
                    }
                } else {
                    forall|k: int|
                        #[trigger] first_comma_at(s@.skip(i + 1), k) ==> {
                            let ys = s@.skip(i + 1).take(k);
                            match r {
                                Ok(p) => u32_text(xs) && u32_text(ys) && p.0 as int == text_num(xs)
                                    && p.1 as int == text_num(ys),
                                Err(_) => !(u32_text(xs) && u32_text(ys)),
                            }
                        }
                }
            },
        r is Err ==> r->Err_0@ == "board size must be numbers in the form W,H"@,
{
    let cs = chars_of(s);
    let n = cs.len();
    let mut i: usize = 0;
    while i < n && cs[i] != ','
        invariant
            i <= n,
            forall|j: int| 0 <= j < i ==> cs@[j] != ',',
        decreases n - i,
    {
        i = i + 1;
    }
    proof {
        assert(first_comma_at(s@, i as int));
        assert(cs@.subrange(0, i as int) =~= s@.take(i as int));
    }
    let x = match parse_u32(&cs, 0, i) {
        Some(v) => v,
        None => {
            return Err("board size must be numbers in the form W,H".to_owned());
        },
    };
    if i == n {
        proof {
            lemma_first_comma_unique(s@, i as int);
        }
        return Ok((x, 9));
    }
    let start = i + 1;
    let mut j = start;
    while j < n && cs[j] != ','
        invariant
            start <= j <= n,
            forall|k: int| start <= k < j ==> cs@[k] != ',',
        decreases n - j,
    {
        j = j + 1;
    }
    proof {
        lemma_first_comma_unique(s@, i as int);
        assert(first_comma_at(s@.skip(i + 1), j - start)) by {
            assert(forall|k: int|
                0 <= k < j - start ==> s@.skip(i as int + 1)[k] == #[trigger] cs@[start + k]);
        }
        lemma_first_comma_unique(s@.skip(i + 1), j - start);
        assert(cs@.subrange(start as int, j as int) =~= s@.skip(i + 1).take(j - start));
    }
    let y = match parse_u32(&cs, start, j) {
        Some(v) => v,
        None => {
            return Err("board size must be numbers in the form W,H".to_owned());
        },
    };
    Ok((x, y))
}

/// At most one position can be the first comma.
proof fn lemma_first_comma_unique(s: Seq<char>, i: int)
    requires
        first_comma_at(s, i),
    ensures
        forall|i2: int| first_comma_at(s, i2) ==> i2 == i,
{
    assert forall|i2: int| first_comma_at(s, i2) implies i2 == i by {
        if i2 < i {
            assert(s[i2] == ',');
        }
        if i < i2 {
            assert(s[i] == ',');
        }
    }
}

} // verus!
