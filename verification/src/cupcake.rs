//! Bakery items built by decoration: a base food wrapped in toppings, each
//! wrapper adding to the name and the price. The first topping reads
//! `<base> with <topping>`, later ones chain on with `and`.
use vstd::prelude::*;

verus! {

/// Whether the word `with` occurs in `s`.
pub open spec fn contains_with(s: Seq<char>) -> bool {
    exists|i: int| 0 <= i && i + 4 <= s.len() && #[trigger] s.subrange(i, i + 4) == "with"@
}

/// The decorated name: the topping is appended with `and` when the base
/// already names a topping, with `with` otherwise.
pub open spec fn spec_topping_name(base: Seq<char>, topping: Seq<char>) -> Seq<char> {
    if contains_with(base) {
        base + " and "@ + topping
    } else {
        base + " with "@ + topping
    }
}

pub trait Food {
    spec fn spec_name(&self) -> Seq<char>;

    spec fn spec_price(&self) -> int;

    /// The prices fit a `u16` at every layer of the stack.
    spec fn price_ok(&self) -> bool;

    fn name(&self) -> (r: String)
        ensures
            r@ == self.spec_name(),
    ;

    fn price_usd_cents(&self) -> (r: u16)
        requires
            self.price_ok(),
        ensures
            r == self.spec_price(),
    ;
}

pub struct Cupcake {}

pub struct Cookie {}

pub struct Chocolate<'a, T> {
    pub wrapped: &'a T,
}

pub struct Sugar<'a, T> {
    pub wrapped: &'a T,
}

pub struct Nuts<'a, T> {
    pub wrapped: &'a T,
}

/// Appends the topping to the base name under the `with`/`and` rule.
pub fn add_topping_name(base: String, topping: &str) -> (r: String)
    ensures
        r@ == spec_topping_name(base@, topping@),
{
    let n = base.as_str().unicode_len();
    let mut i: usize = 0;
    let mut found: bool = false;
    while !found && n >= 4 && i <= n - 4
        invariant
            n == base@.len(),
            0 <= i,
            !found ==> i <= n,
            found ==> contains_with(base@),
            forall|j: int| 0 <= j < i ==> #[trigger] base@.subrange(j, j + 4) != "with"@,
        decreases n - i + (if found {
            0int
        } else {
            1int
        }),
    {
        let c0 = base.as_str().get_char(i);
        let c1 = base.as_str().get_char(i + 1);
        let c2 = base.as_str().get_char(i + 2);
        let c3 = base.as_str().get_char(i + 3);
        proof {
            reveal_strlit("with");
        }
        if c0 == 'w' && c1 == 'i' && c2 == 't' && c3 == 'h' {
            proof {
                assert(base@.subrange(i as int, i + 4) =~= "with"@);
            }
            found = true;
        } else {
            proof {
                if base@.subrange(i as int, i + 4) == "with"@ {
                    assert(base@.subrange(i as int, i + 4)[0] == 'w');
                    assert(base@.subrange(i as int, i + 4)[1] == 'i');
                    assert(base@.subrange(i as int, i + 4)[2] == 't');
                    assert(base@.subrange(i as int, i + 4)[3] == 'h');
                    assert(false);
                }
            }
            i = i + 1;
        }
    }
    proof {
        if !found && contains_with(base@) {
            let w = choose|w: int|
                0 <= w && w + 4 <= base@.len() && #[trigger] base@.subrange(w, w + 4) == "with"@;
            assert(base@.subrange(w, w + 4) != "with"@);
            assert(false);
        }
    }
    let mut out = base;
    if found {
        out.append(" and ");
    } else {
        out.append(" with ");
    }
    out.append(topping);
    out
}

impl Food for Cupcake {
    open spec fn spec_name(&self) -> Seq<char> {
        "cupcake"@
    }

    open spec fn spec_price(&self) -> int {
        100
    }

    open spec fn price_ok(&self) -> bool {
        true
    }

    fn name(&self) -> (r: String) {
        String::from_str("cupcake")
    }

    fn price_usd_cents(&self) -> (r: u16) {
        100
    }
}

impl Food for Cookie {
    open spec fn spec_name(&self) -> Seq<char> {
        "cookie"@
    }

    open spec fn spec_price(&self) -> int {
        200
    }

    open spec fn price_ok(&self) -> bool {
        true
    }

    fn name(&self) -> (r: String) {
        String::from_str("cookie")
    }

    fn price_usd_cents(&self) -> (r: u16) {
        200
    }
}

impl<'a, T: Food> Food for Chocolate<'a, T> {
    open spec fn spec_name(&self) -> Seq<char> {
        spec_topping_name(self.wrapped.spec_name(), "chocolate"@)
    }

    open spec fn spec_price(&self) -> int {
        self.wrapped.spec_price() + 10
    }

    open spec fn price_ok(&self) -> bool {
        self.wrapped.price_ok() && 0 <= self.wrapped.spec_price() && self.wrapped.spec_price() + 10
            <= u16::MAX
    }

    fn name(&self) -> (r: String) {
        add_topping_name(self.wrapped.name(), "chocolate")
    }

    fn price_usd_cents(&self) -> (r: u16) {
        self.wrapped.price_usd_cents() + 10
    }
}

impl<'a, T: Food> Food for Sugar<'a, T> {
    open spec fn spec_name(&self) -> Seq<char> {
        spec_topping_name(self.wrapped.spec_name(), "sugar"@)
    }

    open spec fn spec_price(&self) -> int {
        self.wrapped.spec_price() + 10
    }

    open spec fn price_ok(&self) -> bool {
        self.wrapped.price_ok() && 0 <= self.wrapped.spec_price() && self.wrapped.spec_price() + 10
            <= u16::MAX
    }

    fn name(&self) -> (r: String) {
        add_topping_name(self.wrapped.name(), "sugar")
    }

    fn price_usd_cents(&self) -> (r: u16) {
        self.wrapped.price_usd_cents() + 10
    }
}

impl<'a, T: Food> Food for Nuts<'a, T> {
    open spec fn spec_name(&self) -> Seq<char> {
        spec_topping_name(self.wrapped.spec_name(), "nuts"@)
    }

    open spec fn spec_price(&self) -> int {
        self.wrapped.spec_price() + 20
    }

    open spec fn price_ok(&self) -> bool {
        self.wrapped.price_ok() && 0 <= self.wrapped.spec_price() && self.wrapped.spec_price() + 20
            <= u16::MAX
    }

    fn name(&self) -> (r: String) {
        add_topping_name(self.wrapped.name(), "nuts")
    }

    fn price_usd_cents(&self) -> (r: u16) {
        self.wrapped.price_usd_cents() + 20
    }
}

} // verus!
