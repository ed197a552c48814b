//! An employee report: names are normalized (each word capitalized, the rest
//! lower-cased), minors are filtered out, and the remaining workers are
//! listed sorted by name.
use vstd::multiset::Multiset;
use vstd::prelude::*;

verus! {

/// What `char::to_uppercase` yields for one character: a pure function of the
/// character alone.
pub uninterp spec fn upper_of(c: char) -> Seq<char>;

/// Relies on char::to_uppercase: the Unicode uppercase mapping of a
/// character, depending on the character alone; an ASCII lower-case letter
/// maps to its single upper-case form and any other ASCII character to
/// itself.
#[verifier::external_body]
fn char_to_upper(c: char) -> (r: Vec<char>)
    ensures
        r@ == upper_of(c),
        97 <= c as u32 <= 122 ==> r@ == seq![(((c as u32) - 32) as u8) as char],
        (c as u32) <= 127 && !(97 <= c as u32 <= 122) ==> r@ == seq![c],
{
    c.to_uppercase().collect()
}

/// Relies on String::from_iter over characters: the string holding exactly
/// the characters handed in.
#[verifier::external_body]
fn chars_to_string(v: &Vec<char>) -> (r: String)
    ensures
        r@ == v@,
{
    v.iter().collect()
}

/// The Unicode uppercase mapping of one character, as the name
/// normalization uses it. Restates publicly what holds of `upper_of`: the
/// mapping of an ASCII lower-case letter is its single upper-case form, and
/// of any other ASCII character the character itself.
pub fn upper_chars(c: char) -> (r: Vec<char>)
    ensures
        r@ == upper_of(c),
        97 <= c as u32 <= 122 ==> r@ == seq![(((c as u32) - 32) as u8) as char],
        (c as u32) <= 127 && !(97 <= c as u32 <= 122) ==> r@ == seq![c],
{
    char_to_upper(c)
}

/// An ASCII upper-case letter becomes lower case; all else is unchanged.
pub open spec fn ascii_lower_char(c: char) -> char {
    if 65 <= c as u32 <= 90 {
        (((c as u32) + 32) as u8) as char
    } else {
        c
    }
}

fn to_ascii_lower(c: char) -> (r: char)
    ensures
        r == ascii_lower_char(c),
{
    let code = c as u32;
    if 65 <= code && code <= 90 {
        ((code + 32) as u8) as char
    } else {
        c
    }
}

/// One word capitalized: the first character upper-cased by the Unicode
/// mapping, the rest lower-cased ASCII-wise.
pub open spec fn spec_cap_word(w: Seq<char>) -> Seq<char> {
    if w.len() == 0 {
        Seq::empty()
    } else {
        upper_of(w[0]) + w.skip(1).map_values(|c: char| ascii_lower_char(c))
    }
}

/// A word boundary: words end at (and keep) a hyphen or a space.
pub open spec fn is_delim(c: char) -> bool {
    c == '-' || c == ' '
}

/// The position of the first word boundary in `s`, if any.
pub open spec fn find_delim(s: Seq<char>) -> Option<int>
    decreases s.len(),
{
    if s.len() == 0 {
        None
    } else if is_delim(s[0]) {
        Some(0)
    } else {
        match find_delim(s.skip(1)) {
            Some(i) => Some(i + 1),
            None => None,
        }
    }
}

/// What `find_delim` finds is the first boundary; when it finds nothing there
/// is none.
pub proof fn lemma_find_delim(s: Seq<char>)
    ensures
        match find_delim(s) {
            Some(i) => 0 <= i < s.len() && is_delim(s[i]) && (forall|j: int|
                0 <= j < i ==> !is_delim(#[trigger] s[j])),
            None => forall|j: int| 0 <= j < s.len() ==> !is_delim(#[trigger] s[j]),
        },
    decreases s.len(),
{
    if s.len() == 0 {
    } else if is_delim(s[0]) {
    } else {
        lemma_find_delim(s.skip(1));
        assert(forall|j: int| 1 <= j < s.len() ==> s.skip(1)[j - 1] == #[trigger] s[j]);
    }
}

/// The whole name capitalized, one delimiter-terminated word at a time.
pub open spec fn spec_capitalize(s: Seq<char>) -> Seq<char>
    decreases s.len(),
    via spec_capitalize_dec
{
    match find_delim(s) {
        None => spec_cap_word(s),
        Some(i) => spec_cap_word(s.take(i + 1)) + spec_capitalize(s.skip(i + 1)),
    }
}

#[via_fn]
proof fn spec_capitalize_dec(s: Seq<char>) {
    lemma_find_delim(s);
}

/// The characters of `s`, in order.
fn chars_of(s: &str) -> (r: Vec<char>)
    ensures
        r@ == s@,
{
    let n = s.unicode_len();
    let mut out: Vec<char> = Vec::new();
    let mut i: usize = 0;
    while i < n
        invariant
            0 <= i <= n,
            n == s@.len(),
            out@ == s@.take(i as int),
        decreases n - i,
    {
        out.push(s.get_char(i));
        proof {
            assert(out@ =~= s@.take(i + 1));
        }
        i = i + 1;
    }
    proof {
        assert(s@.take(n as int) =~= s@);
    }
    out
}

#[derive(Debug, PartialEq, Clone, Eq, PartialOrd, Ord)]
pub struct Name {
    name: String,
}

impl View for Name {
    type V = Seq<char>;

    closed spec fn view(&self) -> Seq<char> {
        self.name@
    }
}

impl Name {
    fn capitalize_word(original: String) -> (r: String)
        ensures
            r@ == spec_cap_word(original@),
    {
        let chars = chars_of(original.as_str());
        if chars.len() == 0 {
            return String::new();
        }
        let mut out = upper_chars(chars[0]);
        let ghost head = out@;
        let mut i: usize = 1;
        while i < chars.len()
            invariant
                1 <= i <= chars@.len(),
                chars@ == original@,
                head == upper_of(chars@[0]),
                out@ == head + chars@.subrange(1, i as int).map_values(
                    |c: char| ascii_lower_char(c),
                ),
            decreases chars@.len() - i,
        {
            out.push(to_ascii_lower(chars[i]));
            proof {
                assert(out@ =~= head + chars@.subrange(1, i + 1).map_values(
                    |c: char| ascii_lower_char(c),
                ));
            }
            i = i + 1;
        }
        proof {
            assert(chars@.subrange(1, chars@.len() as int) =~= original@.skip(1));
        }
        chars_to_string(&out)
    }

    fn capitalize(original: String) -> (r: String)
        ensures
            r@ == spec_capitalize(original@),
    {
        let chars = chars_of(original.as_str());
        let r = Self::capitalize_from(&chars, 0);
        proof {
            assert(chars@.skip(0) =~= original@);
        }
        r
    }

    /// Capitalizes the words of `chars` from position `from` on.
    fn capitalize_from(chars: &Vec<char>, from: usize) -> (r: String)
        requires
            from <= chars@.len(),
        ensures
            r@ == spec_capitalize(chars@.skip(from as int)),
        decreases chars@.len() - from,
    {
        let s = Ghost(chars@.skip(from as int));
        proof {
            lemma_find_delim(s@);
        }
        let mut i: usize = from;
        while i < chars.len()
            invariant
                from <= i <= chars@.len(),
                s@ == chars@.skip(from as int),
                forall|j: int| 0 <= j < i - from ==> !is_delim(#[trigger] s@[j]),
            decreases chars@.len() - i,
        {
            proof {
                assert(s@[i - from] == chars@[i as int]);
            }
            let c = chars[i];
            if c == '-' || c == ' ' {
                proof {
                    lemma_find_delim(s@);
                    match find_delim(s@) {
                        Some(k) => {
                            if k < i - from {
                                assert(!is_delim(s@[k]));
                                assert(false);
                            } else if k > i - from {
                                assert(false);
                            }
                        },
                        None => {
                            assert(false);
                        },
                    }
                }
                let mut word: Vec<char> = Vec::new();
                let mut j: usize = from;
                while j <= i
                    invariant
                        from <= j <= i + 1,
                        i < chars@.len(),
                        chars@.len() <= usize::MAX,
                        word@ == chars@.subrange(from as int, j as int),
                    decreases i + 1 - j,
                {
                    word.push(chars[j]);
                    proof {
                        assert(word@ =~= chars@.subrange(from as int, j + 1));
                    }
                    j = j + 1;
                }
                let mut out = Self::capitalize_word(chars_to_string(&word));
                let rest = Self::capitalize_from(chars, i + 1);
                out.append(rest.as_str());
                proof {
                    let k = (i - from) as int;
                    assert(word@ =~= s@.take(k + 1));
                    assert(chars@.skip(i + 1) =~= s@.skip(k + 1));
                }
                return out;
            }
            i = i + 1;
        }
        proof {
            lemma_find_delim(s@);
            match find_delim(s@) {
                Some(k) => {
                    assert(!is_delim(s@[k]));
                    assert(false);
                },
                None => {},
            }
        }
        let mut word: Vec<char> = Vec::new();
        let mut j: usize = from;
        while j < chars.len()
            invariant
                from <= j <= chars@.len(),
                word@ == chars@.subrange(from as int, j as int),
            decreases chars@.len() - j,
        {
            word.push(chars[j]);
            proof {
                assert(word@ =~= chars@.subrange(from as int, j + 1));
            }
            j = j + 1;
        }
        proof {
            assert(word@ =~= s@);
        }
        Self::capitalize_word(chars_to_string(&word))
    }

    /// A name normalized: every word capitalized.
    pub fn new(original: &str) -> (r: Name)
        ensures
            r@ == spec_capitalize(original@),
    {
        Name { name: Self::capitalize(String::from_str(original)) }
    }
}

#[derive(Debug, PartialEq, Clone)]
pub struct Age {
    age: u8,
}

impl View for Age {
    type V = u8;

    closed spec fn view(&self) -> u8 {
        self.age
    }
}

impl Age {
    pub fn new(age: u8) -> (r: Age)
        ensures
            r@ == age,
    {
        Age { age }
    }

    pub fn is_adult(&self) -> (r: bool)
        ensures
            r == (self@ >= 18),
    {
        self.age >= 18
    }
}

#[derive(Debug, PartialEq, Clone)]
pub struct Employee {
    pub name: Name,
    pub age: Age,
}

impl Employee {
    pub fn is_adult(&self) -> (r: bool)
        ensures
            r == (self.age@ >= 18),
    {
        self.age.is_adult()
    }
}

/// The grown-up employees of `s`, in their original order.
pub open spec fn adults_of(s: Seq<Employee>) -> Seq<Employee>
    decreases s.len(),
{
    if s.len() == 0 {
        Seq::empty()
    } else {
        adults_of(s.drop_last()) + (if s.last().age@ >= 18 {
            seq![s.last()]
        } else {
            Seq::empty()
        })
    }
}

/// Names ordered by character code, shorter prefixes first.
pub open spec fn lex_le(a: Seq<char>, b: Seq<char>) -> bool
    decreases a.len(),
{
    if a.len() == 0 {
        true
    } else if b.len() == 0 {
        false
    } else if (a[0] as u32) < (b[0] as u32) {
        true
    } else if (a[0] as u32) > (b[0] as u32) {
        false
    } else {
        lex_le(a.skip(1), b.skip(1))
    }
}

/// The name order relates every two names, one way or the other.
pub proof fn lemma_lex_le_total(a: Seq<char>, b: Seq<char>)
    ensures
        lex_le(a, b) || lex_le(b, a),
    decreases a.len(),
{
    if a.len() == 0 || b.len() == 0 {
    } else if (a[0] as u32) == (b[0] as u32) {
        lemma_lex_le_total(a.skip(1), b.skip(1));
    }
}

/// The name order chains: what is at most `b`, which is at most `c`, is at
/// most `c`.
pub proof fn lemma_lex_le_trans(a: Seq<char>, b: Seq<char>, c: Seq<char>)
    requires
        lex_le(a, b),
        lex_le(b, c),
    ensures
        lex_le(a, c),
    decreases a.len(),
{
    if a.len() == 0 || b.len() == 0 || c.len() == 0 {
    } else if (a[0] as u32) == (b[0] as u32) && (b[0] as u32) == (c[0] as u32) {
        lemma_lex_le_trans(a.skip(1), b.skip(1), c.skip(1));
    }
}

fn name_le(a: &Name, b: &Name) -> (r: bool)
    ensures
        r == lex_le(a@, b@),
{
    let an = a.name.as_str();
    let bn = b.name.as_str();
    let alen = an.unicode_len();
    let blen = bn.unicode_len();
    let mut i: usize = 0;
    proof {
        assert(a@.skip(0) =~= a@);
        assert(b@.skip(0) =~= b@);
    }
    loop
        invariant
            0 <= i,
            i <= alen,
            i <= blen,
            alen == a@.len(),
            blen == b@.len(),
            an@ == a@,
            bn@ == b@,
            lex_le(a@, b@) == lex_le(a@.skip(i as int), b@.skip(i as int)),
        decreases alen - i,
    {
        if i >= alen {
            proof {
                assert(a@.skip(i as int).len() == 0);
            }
            return true;
        }
        if i >= blen {
            proof {
                assert(b@.skip(i as int).len() == 0);
                assert(a@.skip(i as int).len() > 0);
            }
            return false;
        }
        let ca = an.get_char(i) as u32;
        let cb = bn.get_char(i) as u32;
        proof {
            assert(a@.skip(i as int)[0] == a@[i as int]);
            assert(b@.skip(i as int)[0] == b@[i as int]);
        }
        if ca < cb {
            return true;
        }
        if ca > cb {
            return false;
        }
        proof {
            assert(a@.skip(i as int).skip(1) =~= a@.skip(i + 1));
            assert(b@.skip(i as int).skip(1) =~= b@.skip(i + 1));
        }
        i = i + 1;
    }
}

/// Every listed employee comes no later in name order than those after it.
pub open spec fn sorted_by_name(s: Seq<Employee>) -> bool {
    forall|i: int, j: int| 0 <= i < j < s.len() ==> lex_le(#[trigger] s[i].name@, #[trigger] s[j].name@)
}

#[derive(Debug, PartialEq)]
pub struct Employees {
    pub employees: Vec<Employee>,
}

impl Employees {
    fn adults(&self) -> (r: Employees)
        ensures
            r.employees@ == adults_of(self.employees@),
    {
        let mut out: Vec<Employee> = Vec::new();
        let mut i: usize = 0;
        while i < self.employees.len()
            invariant
                0 <= i <= self.employees@.len(),
                out@ == adults_of(self.employees@.take(i as int)),
            decreases self.employees@.len() - i,
        {
            proof {
                assert(self.employees@.take(i + 1).drop_last() =~= self.employees@.take(i as int));
                assert(self.employees@.take(i + 1).last() == self.employees@[i as int]);
            }
            let e = &self.employees[i];
            if e.is_adult() {
                let copy = Employee { name: Name { name: e.name.name.clone() }, age: Age {
                    age: e.age.age,
                } };
                proof {
                    assert(copy.name@ == e.name@ && copy.age@ == e.age@);
                    assert(copy == self.employees@[i as int]) by {
                        assert(copy.name.name@ == e.name.name@);
                    }
                }
                out.push(copy);
                proof {
                    assert(out@ =~= adults_of(self.employees@.take(i + 1)));
                }
            } else {
                proof {
                    assert(out@ =~= adults_of(self.employees@.take(i + 1)));
                }
            }
            i = i + 1;
        }
        proof {
            assert(self.employees@.take(self.employees@.len() as int) =~= self.employees@);
        }
        Employees { employees: out }
    }

    /// The adult employees, sorted by name: the Sunday shift list.
    pub fn sunday_workers(&self) -> (r: Employees)
        ensures
            sorted_by_name(r.employees@),
            r.employees@.to_multiset() == adults_of(self.employees@).to_multiset(),
    {
        broadcast use vstd::seq_lib::group_to_multiset_ensures;

        let mut rest = self.adults();
        let mut out: Vec<Employee> = Vec::new();
        let ghost all = rest.employees@;
        while rest.employees.len() > 0
            invariant
                sorted_by_name(out@),
                out@.to_multiset().add(rest.employees@.to_multiset()) == all.to_multiset(),
                forall|i: int, j: int|
                    0 <= i < out@.len() && 0 <= j < rest.employees@.len() ==> lex_le(
                        #[trigger] out@[i].name@,
                        #[trigger] rest.employees@[j].name@,
                    ),
            decreases rest.employees@.len(),
        {
            // Find the first name-minimal remaining employee.
            let mut m: usize = 0;
            let mut k: usize = 1;
            proof {
                lemma_lex_le_total(rest.employees@[0].name@, rest.employees@[0].name@);
            }
            while k < rest.employees.len()
                invariant
                    0 <= m < k <= rest.employees@.len(),
                    rest.employees@.len() > 0,
                    forall|j: int|
                        0 <= j < k ==> lex_le(
                            rest.employees@[m as int].name@,
                            (#[trigger] rest.employees@[j]).name@,
                        ),
                decreases rest.employees@.len() - k,
            {
                if !name_le(&rest.employees[m].name, &rest.employees[k].name) {
                    proof {
                        lemma_lex_le_total(
                            rest.employees@[m as int].name@,
                            rest.employees@[k as int].name@,
                        );
                        assert forall|j: int| 0 <= j < k + 1 implies lex_le(
                            rest.employees@[k as int].name@,
                            (#[trigger] rest.employees@[j]).name@,
                        ) by {
                            if j < k {
                                lemma_lex_le_trans(
                                    rest.employees@[k as int].name@,
                                    rest.employees@[m as int].name@,
                                    rest.employees@[j].name@,
                                );
                            } else {
                                lemma_lex_le_total(
                                    rest.employees@[k as int].name@,
                                    rest.employees@[k as int].name@,
                                );
                            }
                        }
                    }
                    m = k;
                }
                k = k + 1;
            }
            let ghost rest_pre = rest.employees@;
            let ghost out_pre = out@;
            let picked = rest.employees.remove(m);
            out.push(picked);
            proof {
                broadcast use vstd::seq_lib::group_to_multiset_ensures;

                assert(picked == rest_pre[m as int]);
                assert forall|i: int, j: int| 0 <= i < j < out@.len() implies lex_le(
                    #[trigger] out@[i].name@,
                    #[trigger] out@[j].name@,
                ) by {
                    assert(out@[i] == out_pre[i]);
                    if j == out@.len() - 1 {
                        assert(lex_le(out_pre[i].name@, rest_pre[m as int].name@));
                    } else {
                        assert(out@[j] == out_pre[j]);
                    }
                }
                assert forall|i: int, j: int|
                    0 <= i < out@.len() && 0 <= j < rest.employees@.len() implies lex_le(
                    #[trigger] out@[i].name@,
                    #[trigger] rest.employees@[j].name@,
                ) by {
                    let jj = if j < m {
                        j
                    } else {
                        j + 1
                    };
                    assert(rest.employees@[j] == rest_pre[jj]);
                    if i < out@.len() - 1 {
                        assert(out@[i] == out_pre[i]);
                        assert(lex_le(out_pre[i].name@, rest_pre[jj].name@));
                    } else {
                        assert(out@[i] == rest_pre[m as int]);
                        assert(lex_le(rest_pre[m as int].name@, rest_pre[jj].name@));
                    }
                }
                assert(rest_pre.contains(rest_pre[m as int]));
                assert(rest.employees@ == rest_pre.remove(m as int));
                assert(rest_pre.remove(m as int).to_multiset() =~= rest_pre.to_multiset().remove(
                    picked,
                ));
                assert(out@ == out_pre.push(picked));
                assert(out_pre.push(picked).to_multiset() =~= out_pre.to_multiset().insert(picked));
                assert(out@.to_multiset().add(rest.employees@.to_multiset()) =~= all.to_multiset());
            }
        }
        proof {
            assert(rest.employees@.to_multiset() =~= Multiset::<Employee>::empty());
            assert(out@.to_multiset().add(Multiset::<Employee>::empty()) =~= out@.to_multiset());
        }
        Employees { employees: out }
    }
}

/// The staff on file.
pub fn employees() -> (r: Employees)
    ensures
        r.employees@.len() == 4,
        r.employees@[0].name@ == spec_capitalize("max"@) && r.employees@[0].age@ == 17,
        r.employees@[1].name@ == spec_capitalize("SePP lUça"@) && r.employees@[1].age@ == 18,
        r.employees@[2].name@ == spec_capitalize("NiNa"@) && r.employees@[2].age@ == 15,
        r.employees@[3].name@ == spec_capitalize("jEan-mIkE"@) && r.employees@[3].age@ == 51,
{
    let mut list: Vec<Employee> = Vec::new();
    list.push(Employee { name: Name::new("max"), age: Age::new(17) });
    list.push(Employee { name: Name::new("SePP lUça"), age: Age::new(18) });
    list.push(Employee { name: Name::new("NiNa"), age: Age::new(15) });
    list.push(Employee { name: Name::new("jEan-mIkE"), age: Age::new(51) });
    Employees { employees: list }
}

/// The sum of two counters.
pub fn add(left: usize, right: usize) -> (r: usize)
    requires
        left + right <= usize::MAX,
    ensures
        r == left + right,
{
    left + right
}

} // verus!
