use vstd::prelude::*;
use vstd::string::*;

verus! {

/// The algebra that is active for a piece of text.
#[derive(Debug, Clone, Copy, PartialEq, Eq, Structural)]
pub enum Domain {
    Strings,
    Algebra,
    Sets,
    Boolean,
}

impl Domain {
    /// The display name of the domain.
    pub fn name(&self) -> (r: &'static str)
        ensures
            r@ == domain_name(*self),
    {
        match self {
            Domain::Strings => "Strings",
            Domain::Algebra => "Algebra",
            Domain::Sets => "Sets",
            Domain::Boolean => "Boolean",
        }
    }
}

pub open spec fn domain_name(d: Domain) -> Seq<char> {
    match d {
        Domain::Strings => "Strings"@,
        Domain::Algebra => "Algebra"@,
        Domain::Sets => "Sets"@,
        Domain::Boolean => "Boolean"@,
    }
}

/// The domain that an element name selects: `strings`, `algebra`, `sets` and
/// `boolean` select one each; any other name selects none.
pub open spec fn domain_of(name: Seq<char>) -> Option<Domain> {
    if name == "strings"@ {
        Some(Domain::Strings)
    } else if name == "algebra"@ {
        Some(Domain::Algebra)
    } else if name == "sets"@ {
        Some(Domain::Sets)
    } else if name == "boolean"@ {
        Some(Domain::Boolean)
    } else {
        None
    }
}

/// Whether two texts are equal.
fn same_text(a: &str, b: &str) -> (r: bool)
    ensures
        r == (a@ == b@),
{
    let n = a.unicode_len();
    if n != b.unicode_len() {
        return false;
    }
    let mut i: usize = 0;
    while i < n
        invariant
            n == a@.len(),
            n == b@.len(),
            0 <= i <= n,
            forall|k: int| 0 <= k < i ==> a@[k] == b@[k],
        decreases n - i,
    {
        if a.get_char(i) != b.get_char(i) {
            return false;
        }
        i = i + 1;
    }
    proof {
        assert(a@ =~= b@);
    }
    true
}

/// The domain that an element name selects, if any.
pub fn domain_named(name: &str) -> (r: Option<Domain>)
    ensures
        r == domain_of(name@),
{
    if same_text(name, "strings") {
        Some(Domain::Strings)
    } else if same_text(name, "algebra") {
        Some(Domain::Algebra)
    } else if same_text(name, "sets") {
        Some(Domain::Sets)
    } else if same_text(name, "boolean") {
        Some(Domain::Boolean)
    } else {
        None
    }
}

/// Why a scope could not be left.
#[derive(Debug, Clone, Copy, PartialEq, Eq, Structural)]
pub enum ScopeError {
    /// A domain element was closed with no domain scope open.
    NothingOpen,
    /// A domain element was closed while another domain's scope was innermost.
    Mismatched,
}

/// The stack of domains of the open scopes, innermost last.
pub struct DomainContext {
    stack: Vec<Domain>,
}

impl View for DomainContext {
    type V = Seq<Domain>;

    closed spec fn view(&self) -> Seq<Domain> {
        self.stack@
    }
}

impl DomainContext {
    /// No scope open.
    pub fn new() -> (r: DomainContext)
        ensures
            r@ == Seq::<Domain>::empty(),
    {
        DomainContext { stack: Vec::new() }
    }

    /// The number of open scopes.
    pub fn depth(&self) -> (r: usize)
        ensures
            r == self@.len(),
    {
        self.stack.len()
    }

    /// Opens the scope of an element: a domain element pushes its domain, any
    /// other element changes nothing.
    pub fn enter(&mut self, name: &str)
        ensures
            final(self)@ == match domain_of(name@) {
                Some(d) => old(self)@.push(d),
                None => old(self)@,
            },
    {
        match domain_named(name) {
            Some(d) => self.stack.push(d),
            None => {},
        }
    }

    /// Closes the scope of an element: a domain element pops its domain, which
    /// must be the innermost open one; any other element changes nothing.
    pub fn leave(&mut self, name: &str) -> (r: Result<(), ScopeError>)
        ensures
            domain_of(name@) is None ==> r is Ok && final(self)@ == old(self)@,
            domain_of(name@) is Some && old(self)@.len() == 0 ==> r == Err::<(), ScopeError>(
                ScopeError::NothingOpen,
            ) && final(self)@ == old(self)@,
            domain_of(name@) is Some && old(self)@.len() > 0 && old(self)@.last() != domain_of(
                name@,
            )->Some_0 ==> r == Err::<(), ScopeError>(ScopeError::Mismatched) && final(self)@
                == old(self)@,
            domain_of(name@) is Some && old(self)@.len() > 0 && old(self)@.last() == domain_of(
                name@,
            )->Some_0 ==> r is Ok && final(self)@ == old(self)@.drop_last(),
    {
        match domain_named(name) {
            None => Ok(()),
            Some(d) => {
                let n = self.stack.len();
                if n == 0 {
                    return Err(ScopeError::NothingOpen);
                }
                if self.stack[n - 1] != d {
                    return Err(ScopeError::Mismatched);
                }
                self.stack.pop();
                Ok(())
            },
        }
    }

    /// The domain of the innermost open scope; none when no scope is open.
    pub fn current(&self) -> (r: Option<Domain>)
        ensures
            self@.len() == 0 ==> r is None,
            self@.len() > 0 ==> r == Some(self@.last()),
    {
        let n = self.stack.len();
        if n == 0 {
            None
        } else {
            Some(self.stack[n - 1])
        }
    }
}

} // verus!
