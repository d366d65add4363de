//! Passport records: key/value fields, checked for presence and for the rules on
//! each field's value.

use crate::text::{is_digit, number_of, parse_u64, split_lines};
use vstd::prelude::*;

verus! {

pub struct Passport {
    pub birth_year: Option<u16>,
    pub issue_year: Option<u16>,
    pub expiration_year: Option<u16>,
    pub height: Option<Vec<u8>>,
    pub hair_color: Option<Vec<u8>>,
    pub eye_color: Option<Vec<u8>>,
    pub passport_id: Option<Vec<u8>>,
    pub country_id: Option<Vec<u8>>,
}

pub open spec fn year_in(y: Option<u16>, lo: int, hi: int) -> bool {
    match y {
        Some(v) => lo <= v <= hi,
        None => false,
    }
}

/// The value of an unsigned 8-bit number with an optional leading `+`.
pub open spec fn u8_of(s: Seq<u8>) -> Option<u8> {
    let digits = if s.len() > 0 && s[0] == 43 {
        s.drop_first()
    } else {
        s
    };
    match number_of(digits) {
        Some(v) => if v <= 255 {
            Some(v as u8)
        } else {
            None
        },
        None => None,
    }
}

/// A height: a number of centimetres from 150 to 193 followed by `cm`, or of
/// inches from 59 to 76 followed by `in`.
pub open spec fn height_ok(s: Seq<u8>) -> bool {
    s.len() >= 2 && {
        let unit = s.subrange(s.len() - 2, s.len() as int);
        let num = u8_of(s.subrange(0, s.len() - 2));
        if unit == seq![99u8, 109u8] {
            num matches Some(v) && 150 <= v <= 193
        } else if unit == seq![105u8, 110u8] {
            num matches Some(v) && 59 <= v <= 76
        } else {
            false
        }
    }
}

pub open spec fn is_hex(b: u8) -> bool {
    (48 <= b <= 57) || (97 <= b <= 102) || (65 <= b <= 70)
}

/// `#` followed by hexadecimal digits only.
pub open spec fn hair_ok(s: Seq<u8>) -> bool {
    s.len() >= 1 && s[0] == 35 && forall|i: int| 1 <= i < s.len() ==> is_hex(#[trigger] s[i])
}

/// One of `amb blu brn gry grn hzl oth`.
pub open spec fn eye_ok(s: Seq<u8>) -> bool {
    ||| s == seq![97u8, 109u8, 98u8]
    ||| s == seq![98u8, 108u8, 117u8]
    ||| s == seq![98u8, 114u8, 110u8]
    ||| s == seq![103u8, 114u8, 121u8]
    ||| s == seq![103u8, 114u8, 110u8]
    ||| s == seq![104u8, 122u8, 108u8]
    ||| s == seq![111u8, 116u8, 104u8]
}

/// Nine decimal digits.
pub open spec fn pid_ok(s: Seq<u8>) -> bool {
    s.len() == 9 && forall|i: int| 0 <= i < s.len() ==> is_digit(#[trigger] s[i])
}

pub open spec fn field_ok(f: Option<Vec<u8>>, ok: spec_fn(Seq<u8>) -> bool) -> bool {
    match f {
        Some(v) => ok(v@),
        None => false,
    }
}

impl Passport {
    pub open spec fn primitive_spec(&self) -> bool {
        &&& self.birth_year is Some
        &&& self.issue_year is Some
        &&& self.expiration_year is Some
        &&& self.height is Some
        &&& self.hair_color is Some
        &&& self.eye_color is Some
        &&& self.passport_id is Some
    }

    pub open spec fn advanced_spec(&self) -> bool {
        &&& year_in(self.birth_year, 1920, 2002)
        &&& year_in(self.issue_year, 2010, 2020)
        &&& year_in(self.expiration_year, 2020, 2030)
        &&& (self.height matches Some(h) && height_ok(h@))
        &&& (self.hair_color matches Some(h) && hair_ok(h@))
        &&& (self.eye_color matches Some(e) && eye_ok(e@))
        &&& (self.passport_id matches Some(p) && pid_ok(p@))
    }

    /// A passport with no fields.
    pub fn new() -> (r: Self)
        ensures
            r.birth_year is None,
            r.issue_year is None,
            r.expiration_year is None,
            r.height is None,
            r.hair_color is None,
            r.eye_color is None,
            r.passport_id is None,
            r.country_id is None,
    {
        Passport {
            birth_year: None,
            issue_year: None,
            expiration_year: None,
            height: None,
            hair_color: None,
            eye_color: None,
            passport_id: None,
            country_id: None,
        }
    }

    /// Every field but the country is present.
    pub fn is_valid_primitive(&self) -> (r: bool)
        ensures
            r == self.primitive_spec(),
    {
        self.birth_year.is_some() && self.issue_year.is_some() && self.expiration_year.is_some()
            && self.height.is_some() && self.hair_color.is_some() && self.eye_color.is_some()
            && self.passport_id.is_some()
    }

    /// Every field but the country is present and follows its rule.
    pub fn is_valid_advanced(&self) -> (r: bool)
        ensures
            r == self.advanced_spec(),
    {
        self.valid_birth_year() && self.valid_issue_year() && self.valid_expiration_year()
            && self.valid_height() && self.valid_hair_color() && self.valid_eye_color()
            && self.valid_passport_id()
    }

    pub fn birth_year(&mut self, year: u16)
        ensures
            final(self).birth_year == Some(year),
            final(self).issue_year == old(self).issue_year,
            final(self).expiration_year == old(self).expiration_year,
            final(self).height == old(self).height,
            final(self).hair_color == old(self).hair_color,
            final(self).eye_color == old(self).eye_color,
            final(self).passport_id == old(self).passport_id,
            final(self).country_id == old(self).country_id,
    {
        self.birth_year = Some(year);
    }

    pub fn valid_birth_year(&self) -> (r: bool)
        ensures
            r == year_in(self.birth_year, 1920, 2002),
    {
        match self.birth_year {
            Some(year) => 1920 <= year && year <= 2002,
            None => false,
        }
    }

    pub fn issue_year(&mut self, year: u16)
        ensures
            final(self).issue_year == Some(year),
            final(self).birth_year == old(self).birth_year,
            final(self).expiration_year == old(self).expiration_year,
            final(self).height == old(self).height,
            final(self).hair_color == old(self).hair_color,
            final(self).eye_color == old(self).eye_color,
            final(self).passport_id == old(self).passport_id,
            final(self).country_id == old(self).country_id,
    {
        self.issue_year = Some(year);
    }

    pub fn valid_issue_year(&self) -> (r: bool)
        ensures
            r == year_in(self.issue_year, 2010, 2020),
    {
        match self.issue_year {
            Some(year) => 2010 <= year && year <= 2020,
            None => false,
        }
    }

    pub fn expiration_year(&mut self, year: u16)
        ensures
            final(self).expiration_year == Some(year),
            final(self).birth_year == old(self).birth_year,
            final(self).issue_year == old(self).issue_year,
            final(self).height == old(self).height,
            final(self).hair_color == old(self).hair_color,
            final(self).eye_color == old(self).eye_color,
            final(self).passport_id == old(self).passport_id,
            final(self).country_id == old(self).country_id,
    {
        self.expiration_year = Some(year);
    }

    pub fn valid_expiration_year(&self) -> (r: bool)
        ensures
            r == year_in(self.expiration_year, 2020, 2030),
    {
        match self.expiration_year {
            Some(year) => 2020 <= year && year <= 2030,
            None => false,
        }
    }

    pub fn height(&mut self, height: Vec<u8>)
        ensures
            final(self).height == Some(height),
            final(self).birth_year == old(self).birth_year,
            final(self).issue_year == old(self).issue_year,
            final(self).expiration_year == old(self).expiration_year,
            final(self).hair_color == old(self).hair_color,
            final(self).eye_color == old(self).eye_color,
            final(self).passport_id == old(self).passport_id,
            final(self).country_id == old(self).country_id,
    {
        self.height = Some(height);
    }

    pub fn valid_height(&self) -> (r: bool)
        ensures
            r == (self.height matches Some(h) && height_ok(h@)),
    {
        match self.height.as_ref() {
            Some(h) => height_valid(h),
            None => false,
        }
    }

    pub fn hair_color(&mut self, color: Vec<u8>)
        ensures
            final(self).hair_color == Some(color),
            final(self).birth_year == old(self).birth_year,
            final(self).issue_year == old(self).issue_year,
            final(self).expiration_year == old(self).expiration_year,
            final(self).height == old(self).height,
            final(self).eye_color == old(self).eye_color,
            final(self).passport_id == old(self).passport_id,
            final(self).country_id == old(self).country_id,
    {
        self.hair_color = Some(color);
    }

    pub fn valid_hair_color(&self) -> (r: bool)
        ensures
            r == (self.hair_color matches Some(h) && hair_ok(h@)),
    {
        match self.hair_color.as_ref() {
            Some(c) => {
                if c.len() == 0 || c[0] != 35 {
                    return false;
                }
                let mut i: usize = 1;
                while i < c.len()
                    invariant
                        self.hair_color matches Some(h) && h@ == c@,
                        c@.len() >= 1 && c@[0] == 35,
                        1 <= i <= c@.len(),
                        forall|k: int| 1 <= k < i ==> is_hex(#[trigger] c@[k]),
                    decreases c@.len() - i,
                {
                    let b = c[i];
                    if !((48 <= b && b <= 57) || (97 <= b && b <= 102) || (65 <= b && b <= 70)) {
                        assert(!is_hex(c@[i as int]));
                        return false;
                    }
                    i += 1;
                }
                true
            },
            None => false,
        }
    }

    pub fn eye_color(&mut self, color: Vec<u8>)
        ensures
            final(self).eye_color == Some(color),
            final(self).birth_year == old(self).birth_year,
            final(self).issue_year == old(self).issue_year,
            final(self).expiration_year == old(self).expiration_year,
            final(self).height == old(self).height,
            final(self).hair_color == old(self).hair_color,
            final(self).passport_id == old(self).passport_id,
            final(self).country_id == old(self).country_id,
    {
        self.eye_color = Some(color);
    }

    pub fn valid_eye_color(&self) -> (r: bool)
        ensures
            r == (self.eye_color matches Some(e) && eye_ok(e@)),
    {
        match self.eye_color.as_ref() {
            Some(e) => {
                if e.len() != 3 {
                    proof {
                        lemma_eye_len(e@);
                    }
                    return false;
                }
                let (a, b, c) = (e[0], e[1], e[2]);
                let ok = (a == 97 && b == 109 && c == 98) || (a == 98 && b == 108 && c == 117) || (
                a == 98 && b == 114 && c == 110) || (a == 103 && b == 114 && c == 121) || (a == 103
                    && b == 114 && c == 110) || (a == 104 && b == 122 && c == 108) || (a == 111 && b
                    == 116 && c == 104);
                proof {
                    lemma_eye_bytes(e@);
                }
                ok
            },
            None => false,
        }
    }

    pub fn passport_id(&mut self, id: Vec<u8>)
        ensures
            final(self).passport_id == Some(id),
            final(self).birth_year == old(self).birth_year,
            final(self).issue_year == old(self).issue_year,
            final(self).expiration_year == old(self).expiration_year,
            final(self).height == old(self).height,
            final(self).hair_color == old(self).hair_color,
            final(self).eye_color == old(self).eye_color,
            final(self).country_id == old(self).country_id,
    {
        self.passport_id = Some(id);
    }

    pub fn valid_passport_id(&self) -> (r: bool)
        ensures
            r == (self.passport_id matches Some(p) && pid_ok(p@)),
    {
        match self.passport_id.as_ref() {
            Some(p) => {
                let mut i: usize = 0;
                while i < p.len()
                    invariant
                        self.passport_id matches Some(q) && q@ == p@,
                        i <= p@.len(),
                        forall|k: int| 0 <= k < i ==> is_digit(#[trigger] p@[k]),
                    decreases p@.len() - i,
                {
                    if p[i] < 48 || p[i] > 57 {
                        assert(!is_digit(p@[i as int]));
                        return false;
                    }
                    i += 1;
                }
                p.len() == 9
            },
            None => false,
        }
    }

    pub fn country_id(&mut self, id: Vec<u8>)
        ensures
            final(self).country_id == Some(id),
            final(self).birth_year == old(self).birth_year,
            final(self).issue_year == old(self).issue_year,
            final(self).expiration_year == old(self).expiration_year,
            final(self).height == old(self).height,
            final(self).hair_color == old(self).hair_color,
            final(self).eye_color == old(self).eye_color,
            final(self).passport_id == old(self).passport_id,
    {
        self.country_id = Some(id);
    }
}

proof fn lemma_eye_len(s: Seq<u8>)
    requires
        s.len() != 3,
    ensures
        !eye_ok(s),
{
}

proof fn lemma_eye_bytes(s: Seq<u8>)
    requires
        s.len() == 3,
    ensures
        eye_ok(s) == ((s[0] == 97 && s[1] == 109 && s[2] == 98) || (s[0] == 98 && s[1] == 108 && s[2]
            == 117) || (s[0] == 98 && s[1] == 114 && s[2] == 110) || (s[0] == 103 && s[1] == 114
            && s[2] == 121) || (s[0] == 103 && s[1] == 114 && s[2] == 110) || (s[0] == 104 && s[1]
            == 122 && s[2] == 108) || (s[0] == 111 && s[1] == 116 && s[2] == 104)),
{
    assert(s =~= seq![s[0], s[1], s[2]]);
}

/// Reads `s[start..end]` as an 8-bit number with an optional leading `+`.
fn parse_u8(s: &[u8], start: usize, end: usize) -> (r: Option<u8>)
    requires
        start <= end <= s@.len(),
    ensures
        r == u8_of(s@.subrange(start as int, end as int)),
{
    let ghost t = s@.subrange(start as int, end as int);
    let from = if start < end && s[start] == 43 {
        assert(t.drop_first() =~= s@.subrange(start + 1, end as int));
        start + 1
    } else {
        start
    };
    match parse_u64(s, from, end) {
        Some(v) => if v <= 255 {
            Some(v as u8)
        } else {
            None
        },
        None => None,
    }
}

fn height_valid(h: &Vec<u8>) -> (r: bool)
    ensures
        r == height_ok(h@),
{
    let n = h.len();
    if n < 2 {
        return false;
    }
    let ghost unit = h@.subrange(n - 2, n as int);
    let (a, b) = (h[n - 2], h[n - 1]);
    assert(unit[0] == a && unit[1] == b);
    let num = parse_u8(h.as_slice(), 0, n - 2);
    if a == 99 && b == 109 {
        assert(unit =~= seq![99u8, 109u8]);
        match num {
            Some(v) => 150 <= v && v <= 193,
            None => false,
        }
    } else if a == 105 && b == 110 {
        assert(unit =~= seq![105u8, 110u8]);
        assert(unit != seq![99u8, 109u8]) by {
            assert(seq![99u8, 109u8][0] == 99);
        }
        match num {
            Some(v) => 59 <= v && v <= 76,
            None => false,
        }
    } else {
        assert(unit != seq![99u8, 109u8]) by {
            if unit == seq![99u8, 109u8] {
                assert(seq![99u8, 109u8][0] == 99 && seq![99u8, 109u8][1] == 109);
            }
        }
        assert(unit != seq![105u8, 110u8]) by {
            if unit == seq![105u8, 110u8] {
                assert(seq![105u8, 110u8][0] == 105 && seq![105u8, 110u8][1] == 110);
            }
        }
        false
    }
}

/// The bytes `s[start..end]`.
fn slice_of(s: &Vec<u8>, start: usize, end: usize) -> (r: Vec<u8>)
    requires
        start <= end <= s@.len(),
    ensures
        r@ == s@.subrange(start as int, end as int),
{
    let mut out: Vec<u8> = Vec::new();
    let mut i = start;
    while i < end
        invariant
            start <= i <= end <= s@.len(),
            out@ == s@.subrange(start as int, i as int),
        decreases end - i,
    {
        out.push(s[i]);
        i += 1;
        assert(out@ =~= s@.subrange(start as int, i as int));
    }
    out
}

/// Records one `key:value` item; `None` for an unknown key or a year that is not
/// a 16-bit number.
fn record(passport: &mut Passport, item: &Vec<u8>) -> (r: bool)
    requires
        item@.len() >= 4,
{
    let (k0, k1, k2) = (item[0], item[1], item[2]);
    let value = slice_of(item, 4, item.len());
    if (k0 == 98 && k1 == 121 && k2 == 114) || (k0 == 105 && k1 == 121 && k2 == 114) || (k0 == 101 && k1 == 121 && k2 == 114) {
        let year = match parse_u64(value.as_slice(), 0, value.len()) {
            Some(y) => if y <= 65535 {
                y as u16
            } else {
                return false;
            },
            None => {
                return false;
            },
        };
        if k0 == 98 {
            passport.birth_year(year);
        } else if k0 == 105 {
            passport.issue_year(year);
        } else {
            passport.expiration_year(year);
        }
        true
    } else if (k0 == 104 && k1 == 103 && k2 == 116) {
        passport.height(value);
        true
    } else if (k0 == 104 && k1 == 99 && k2 == 108) {
        passport.hair_color(value);
        true
    } else if (k0 == 101 && k1 == 99 && k2 == 108) {
        passport.eye_color(value);
        true
    } else if (k0 == 112 && k1 == 105 && k2 == 100) {
        passport.passport_id(value);
        true
    } else if (k0 == 99 && k1 == 105 && k2 == 100) {
        passport.country_id(value);
        true
    } else {
        false
    }
}

/// Reads the passports: space-separated `key:value` items over consecutive
/// lines, a blank line closing each passport. `None` on an unknown key or an item
/// too short to hold one.
pub fn parser(input: &str) -> (r: Option<Vec<Passport>>)
{
    let mut lines = split_lines(input.as_bytes());
    if lines.len() > 1 && lines[lines.len() - 1].len() == 0 {
        lines.pop();
    }
    let mut passport_list: Vec<Passport> = Vec::new();
    let mut passport = Passport::new();
    let mut i: usize = 0;
    while i < lines.len()
        invariant
            i <= lines@.len(),
        decreases lines@.len() - i,
    {
        let line = &lines[i];
        let mut start: usize = 0;
        loop
            invariant
                start <= line@.len(),
            decreases line@.len() - start,
        {
            let mut end = start;
            while end < line.len() && line[end] != 32
                invariant
                    start <= end <= line@.len(),
                decreases line@.len() - end,
            {
                end += 1;
            }
            if end == start {
                let mut done = Passport::new();
                std::mem::swap(&mut passport, &mut done);
                passport_list.push(done);
            } else {
                if end - start < 4 {
                    return None;
                }
                let item = slice_of(line, start, end);
                if !record(&mut passport, &item) {
                    return None;
                }
            }
            if end >= line.len() {
                break;
            }
            start = end + 1;
        }
        i += 1;
    }
    Some(passport_list)
}

pub open spec fn count_passing(ps: Seq<Passport>, k: int, advanced: bool) -> nat
    decreases k,
{
    if k <= 0 {
        0
    } else {
        count_passing(ps, k - 1, advanced) + if (if advanced {
            ps[k - 1].advanced_spec()
        } else {
            ps[k - 1].primitive_spec()
        }) {
            1nat
        } else {
            0nat
        }
    }
}

fn count_valid(input: &[Passport], advanced: bool) -> (r: usize)
    ensures
        r == count_passing(input@, input@.len() as int, advanced),
{
    let mut n: usize = 0;
    let mut i: usize = 0;
    while i < input.len()
        invariant
            i <= input@.len(),
            n == count_passing(input@, i as int, advanced),
            n <= i,
        decreases input@.len() - i,
    {
        let ok = if advanced {
            input[i].is_valid_advanced()
        } else {
            input[i].is_valid_primitive()
        };
        if ok {
            n += 1;
        }
        i += 1;
    }
    n
}

/// How many passports have every field but the country.
pub fn solve_part1(input: &[Passport]) -> (r: usize)
    ensures
        r == count_passing(input@, input@.len() as int, false),
{
    count_valid(input, false)
}

/// How many passports have every field but the country, each following its rule.
pub fn solve_part2(input: &[Passport]) -> (r: usize)
    ensures
        r == count_passing(input@, input@.len() as int, true),
{
    count_valid(input, true)
}

} // verus!
