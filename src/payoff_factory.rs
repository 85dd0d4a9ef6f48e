//! A registry of payoff kinds by name. The application keeps one registry
//! object and asks it which payoff a name stands for; the payoff itself
//! (its strike and its value) is built outside the registry.
use vstd::prelude::*;

verus! {

/// The kinds of vanilla payoff.
#[derive(Clone, Copy, Debug, PartialEq, Eq, Structural)]
pub enum OptionType {
    Call,
    Put,
}

/// Failures of the registry.
#[derive(Clone, Debug, PartialEq, Eq)]
pub enum FactoryError {
    /// No payoff is registered under the name.
    NotFound(String),
    /// A payoff is already registered under the name.
    DuplicateError(String),
}

/// The cause of a failed registration.
#[derive(Clone, Debug, PartialEq, Eq)]
pub enum ErrorType {
    /// A payoff is already registered under the name.
    DuplicateError(String),
    /// The shared registry could not be locked; the message says why.
    PoisonError(String),
}

/// A failed registration.
#[derive(Clone, Debug, PartialEq, Eq)]
pub struct RegistrationError {
    pub error_type: ErrorType,
}

impl RegistrationError {
    pub fn new(error_type: ErrorType) -> (r: RegistrationError)
        ensures
            r.error_type == error_type,
    {
        RegistrationError { error_type }
    }
}

/// The names under which the standard payoffs are registered.
pub open spec fn call_name() -> Seq<char> {
    seq!['c', 'a', 'l', 'l']
}

pub open spec fn put_name() -> Seq<char> {
    seq!['p', 'u', 't']
}

/// Payoff kinds by name; each name is registered at most once.
pub struct PayoffFactory {
    names: Vec<String>,
    kinds: Vec<OptionType>,
}

impl View for PayoffFactory {
    type V = Map<Seq<char>, OptionType>;

    /// The kind registered under each name.
    closed spec fn view(&self) -> Map<Seq<char>, OptionType> {
        Map::new(
            |name: Seq<char>| exists|i: int| 0 <= i < self.names@.len() && self.names@[i]@ == name,
            |name: Seq<char>|
                self.kinds@[choose|i: int| 0 <= i < self.names@.len() && self.names@[i]@ == name],
        )
    }
}

impl PayoffFactory {
    /// Names and kinds are paired and the names are distinct.
    pub closed spec fn wf(&self) -> bool {
        &&& self.names@.len() == self.kinds@.len()
        &&& forall|i: int, j: int|
            0 <= i < j < self.names@.len() ==> #[trigger] self.names@[i]@ != #[trigger] self.names@[j]@
    }

    /// The entry at `i` is what the view holds for its name.
    proof fn lemma_entry(&self, i: int)
        requires
            self.wf(),
            0 <= i < self.names@.len(),
        ensures
            self@.contains_key(self.names@[i]@),
            self@[self.names@[i]@] == self.kinds@[i],
    {
        let name = self.names@[i]@;
        assert(exists|j: int| 0 <= j < self.names@.len() && self.names@[j]@ == name);
        let j = choose|j: int| 0 <= j < self.names@.len() && self.names@[j]@ == name;
        assert(j == i);
    }

    /// An empty registry.
    pub fn new() -> (r: PayoffFactory)
        ensures
            r.wf(),
            r@ == Map::<Seq<char>, OptionType>::empty(),
    {
        let r = PayoffFactory { names: Vec::new(), kinds: Vec::new() };
        assert(r@ =~= Map::<Seq<char>, OptionType>::empty());
        r
    }

    /// The position of `payoff_id` among the names, if registered.
    fn find(&self, payoff_id: &str) -> (r: Option<usize>)
        requires
            self.wf(),
        ensures
            match r {
                Some(i) => i < self.names@.len() && self.names@[i as int]@ == payoff_id@,
                None => forall|i: int|
                    0 <= i < self.names@.len() ==> #[trigger] self.names@[i]@ != payoff_id@,
            },
    {
        let key = payoff_id.to_owned();
        let n = self.names.len();
        let mut i: usize = 0;
        while i < n
            invariant
                i <= n,
                n == self.names@.len(),
                key@ == payoff_id@,
                forall|j: int| 0 <= j < i ==> #[trigger] self.names@[j]@ != payoff_id@,
            decreases n - i,
        {
            if self.names[i] == key {
                return Some(i);
            }
            i = i + 1;
        }
        None
    }

    /// Whether a payoff is registered under `payoff_id`.
    pub fn is_registered(&self, payoff_id: &str) -> (r: bool)
        requires
            self.wf(),
        ensures
            r == self@.contains_key(payoff_id@),
    {
        match self.find(payoff_id) {
            Some(i) => {
                proof {
                    self.lemma_entry(i as int);
                }
                true
            },
            None => false,
        }
    }

    /// The kind registered under `payoff_id`, or `NotFound` with the name.
    pub fn create_payoff(&self, payoff_id: &str) -> (r: Result<OptionType, FactoryError>)
        requires
            self.wf(),
        ensures
            self@.contains_key(payoff_id@) ==> r == Ok::<OptionType, FactoryError>(
                self@[payoff_id@],
            ),
            !self@.contains_key(payoff_id@) ==> (r matches Err(FactoryError::NotFound(name))
                && name@ == payoff_id@),
    {
        match self.find(payoff_id) {
            Some(i) => {
                proof {
                    self.lemma_entry(i as int);
                }
                Ok(self.kinds[i])
            },
            None => Err(FactoryError::NotFound(payoff_id.to_owned())),
        }
    }

    /// Registers `kind` under `payoff_id`; a name already registered is
    /// refused with `DuplicateError` and the registry left as it was.
    pub fn register(&mut self, payoff_id: &str, kind: OptionType) -> (r: Result<(), FactoryError>)
        requires
            old(self).wf(),
        ensures
            final(self).wf(),
            old(self)@.contains_key(payoff_id@) ==> (r matches Err(
                FactoryError::DuplicateError(name),
            ) && name@ == payoff_id@ && final(self)@ == old(self)@),
            !old(self)@.contains_key(payoff_id@) ==> (r is Ok && final(self)@ == old(self)@.insert(
                payoff_id@,
                kind,
            )),
    {
        match self.find(payoff_id) {
            Some(i) => {
                proof {
                    self.lemma_entry(i as int);
                }
                Err(FactoryError::DuplicateError(payoff_id.to_owned()))
            },
            None => {
                let ghost before = *self;
                self.names.push(payoff_id.to_owned());
                self.kinds.push(kind);
                proof {
                    let n = before.names@.len() as int;
                    assert forall|i: int, j: int|
                        0 <= i < j < self.names@.len() implies #[trigger] self.names@[i]@
                        != #[trigger] self.names@[j]@ by {
                        if j < n {
                            assert(self.names@[i] == before.names@[i]);
                            assert(self.names@[j] == before.names@[j]);
                        }
                    }
                    assert forall|name: Seq<char>|
                        #[trigger] self@.contains_key(name) <==> before@.insert(
                            payoff_id@,
                            kind,
                        ).contains_key(name) by {
                        if before@.contains_key(name) {
                            let j = choose|j: int|
                                0 <= j < before.names@.len() && before.names@[j]@ == name;
                            assert(self.names@[j] == before.names@[j]);
                        }
                        if self@.contains_key(name) && name != payoff_id@ {
                            let j = choose|j: int|
                                0 <= j < self.names@.len() && self.names@[j]@ == name;
                            assert(j < n);
                            assert(self.names@[j] == before.names@[j]);
                        }
                        if name == payoff_id@ {
                            assert(self.names@[n]@ == name);
                        }
                    }
                    assert forall|name: Seq<char>| #[trigger]
                        self@.contains_key(name) implies self@[name] == before@.insert(
                        payoff_id@,
                        kind,
                    )[name] by {
                        let j = choose|j: int|
                            0 <= j < self.names@.len() && self.names@[j]@ == name;
                        self.lemma_entry(j);
                        if j < n {
                            assert(self.names@[j] == before.names@[j]);
                            assert(self.kinds@[j] == before.kinds@[j]);
                            before.lemma_entry(j);
                        }
                    }
                    assert(self@ =~= before@.insert(payoff_id@, kind));
                }
                Ok(())
            },
        }
    }

    /// A registry holding the standard payoffs: `call` and `put`.
    pub fn instance() -> (r: Result<PayoffFactory, FactoryError>)
        ensures
            r matches Ok(f) && f.wf() && f@ == map![call_name() => OptionType::Call, put_name() => OptionType::Put],
    {
        let mut val = PayoffFactory::new();
        val.register_all_payoffs()?;
        Ok(val)
    }

    /// Registers the standard payoffs.
    fn register_all_payoffs(&mut self) -> (r: Result<(), FactoryError>)
        requires
            old(self).wf(),
            old(self)@ == Map::<Seq<char>, OptionType>::empty(),
        ensures
            r is Ok,
            final(self).wf(),
            final(self)@ == map![call_name() => OptionType::Call, put_name() => OptionType::Put],
    {
        proof {
            reveal_strlit("call");
            reveal_strlit("put");
            assert("call"@ =~= call_name());
            assert("put"@ =~= put_name());
            assert(call_name() != put_name()) by {
                assert(call_name().len() != put_name().len());
            }
        }
        self.register("call", OptionType::Call)?;
        assert(!self@.contains_key("put"@));
        self.register("put", OptionType::Put)?;
        proof {
            assert(call_name() != put_name());
            assert(self@ =~= map![call_name() => OptionType::Call, put_name() => OptionType::Put]);
        }
        Ok(())
    }
}

} // verus!
