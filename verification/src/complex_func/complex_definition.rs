//! The table of what names mean: numbers, functions given by a formula of
//! their arguments, and built-in functions (of a type `F` that the user
//! chooses; the table only holds them).
use vstd::prelude::*;
use vstd::string::StringExecFns;

use super::grammar::{law_parse_call, law_parse_word, spec_parse};
use super::text::is_alpha;
use super::text::push_char;
use super::{drawing, leaf, name_of, vec_of, view_seq, CalculationError, ComplexNode, Kind, Tree};

verus! {

/// What a name is defined as.
pub enum ComplexValue<F> {
    /// A function: the formula of its arguments and the formula of its value.
    Func(ComplexNode, ComplexNode),
    /// A built-in function.
    NaitiveFunc(F),
    /// A value given by a formula.
    Value(ComplexNode),
}

/// The model of what a name is defined as.
pub enum Meaning<F> {
    Func(Tree, Tree),
    NaitiveFunc(F),
    Value(Tree),
}

pub open spec fn meaning<F>(v: ComplexValue<F>) -> Meaning<F> {
    match v {
        ComplexValue::Func(a, f) => Meaning::Func(a@, f@),
        ComplexValue::NaitiveFunc(f) => Meaning::NaitiveFunc(f),
        ComplexValue::Value(x) => Meaning::Value(x@),
    }
}

/// The table `m` after defining the formula `name` as the formula `def`:
/// the name of `name`'s tree is defined as `def`'s tree, as a function of
/// the right child of `name`'s tree when it has one, else as a value.
pub open spec fn after_define<F>(m: Map<Seq<char>, Meaning<F>>, name: Seq<char>, def: Seq<char>) -> Map<
    Seq<char>,
    Meaning<F>,
> {
    let n = spec_parse(name)->Ok_0->Some_0;
    let d = spec_parse(def)->Ok_0->Some_0;
    m.insert(
        name_of(n),
        match n.right {
            Some(arg) => Meaning::Func(*arg, d),
            None => Meaning::Value(d),
        },
    )
}

/// The text reads to a formula (not to nothing, and not to an error).
pub open spec fn reads_to_formula(s: Seq<char>) -> bool {
    spec_parse(s) matches Ok(Some(_))
}

/// The table `m` after defining `name` as `def` where both read to a
/// formula; `m` itself where one of them does not.
pub open spec fn after_define_if_readable<F>(m: Map<Seq<char>, Meaning<F>>, name: Seq<char>, def: Seq<char>) -> Map<
    Seq<char>,
    Meaning<F>,
> {
    if reads_to_formula(name) && reads_to_formula(def) {
        after_define(m, name, def)
    } else {
        m
    }
}

/// The table `m` after the standard formulas are defined, in this order.
pub open spec fn with_standard_formulas<F>(m: Map<Seq<char>, Meaning<F>>) -> Map<Seq<char>, Meaning<F>> {
    let m = after_define_if_readable(m, "exp(x)"@, "e^x"@);
    let m = after_define_if_readable(m, "cos(x)"@, "(1/2)*(exp(i*x)+exp(-i*x))"@);
    let m = after_define_if_readable(m, "sin(x)"@, "(1/2i)*(exp(i*x)-exp(-i*x))"@);
    let m = after_define_if_readable(m, "tan(x)"@, "sin(x)/cos(x)"@);
    let m = after_define_if_readable(m, "sqrt(x)"@, "x^(1/2)"@);
    let m = after_define_if_readable(m, "abs(x)"@, "sqrt(norm(x))"@);
    let m = after_define_if_readable(m, "norm(x)"@, "x*(real(x)-imaginary(x))"@);
    let m = after_define_if_readable(m, "to_radians(x)"@, "(x/180)*PI"@);
    after_define_if_readable(m, "to_degrees(x)"@, "x*(180/PI)"@)
}

/// Names with what they are defined as. Its model is a map from names to
/// meanings. The names are held in a vector of pairs, each name once (the
/// type invariant), rather than in a `HashMap<String, _>`: vstd's
/// specification of `HashMap` proves little about keys of type `String`,
/// while a vector of pairs lets every operation be stated as an operation on
/// the map.
pub struct ComplexDefinition<F> {
    map: Vec<(String, ComplexValue<F>)>,
}

impl<F> ComplexDefinition<F> {
    /// Each name occurs once.
    #[verifier::type_invariant]
    spec fn names_distinct(self) -> bool {
        forall|i: int, j: int|
            0 <= i < j < self.map@.len() ==> #[trigger] self.map@[i].0@ != #[trigger] self.map@[j].0@
    }

    spec fn has_key(self, k: Seq<char>) -> bool {
        exists|i: int| 0 <= i < self.map@.len() && #[trigger] self.map@[i].0@ == k
    }

    spec fn key_index(self, k: Seq<char>) -> int {
        choose|i: int| 0 <= i < self.map@.len() && #[trigger] self.map@[i].0@ == k
    }

    proof fn lemma_view(self)
        requires
            self.names_distinct(),
        ensures
            forall|i: int|
                0 <= i < self.map@.len() ==> #[trigger] self@.contains_key(self.map@[i].0@)
                    && self@[self.map@[i].0@] == meaning(self.map@[i].1),
            forall|k: Seq<char>| #[trigger]
                self@.contains_key(k) ==> exists|i: int|
                    0 <= i < self.map@.len() && #[trigger] self.map@[i].0@ == k,
    {
        assert forall|i: int| 0 <= i < self.map@.len() implies #[trigger] self@.contains_key(
            self.map@[i].0@,
        ) && self@[self.map@[i].0@] == meaning(self.map@[i].1) by {
            let k = self.map@[i].0@;
            assert(self.has_key(k));
            let j = self.key_index(k);
            if i != j {
                if i < j {
                    assert(self.map@[i].0@ != self.map@[j].0@);
                } else {
                    assert(self.map@[j].0@ != self.map@[i].0@);
                }
            }
        }
    }

    /// The index of `key`, if it is defined.
    fn position(&self, key: &String) -> (r: Option<usize>)
        ensures
            r matches Some(i) ==> i < self.map@.len() && self.map@[i as int].0@ == key@,
            r is None ==> forall|i: int| 0 <= i < self.map@.len() ==> #[trigger] self.map@[i].0@ != key@,
    {
        let mut i: usize = 0;
        while i < self.map.len()
            invariant
                i <= self.map@.len(),
                forall|j: int| 0 <= j < i ==> #[trigger] self.map@[j].0@ != key@,
            decreases self.map.len() - i,
        {
            if self.map[i].0 == *key {
                return Some(i);
            }
            i = i + 1;
        }
        None
    }

    /// Defines `key` as `value`, replacing what it was defined as.
    fn insert(&mut self, key: String, value: ComplexValue<F>)
        ensures
            final(self)@ == old(self)@.insert(key@, meaning(value)),
    {
        proof {
            use_type_invariant(&*self);
            self.lemma_view();
        }
        let ghost k = key@;
        let ghost m = meaning(value);
        let ghost before = *self;
        let found = self.position(&key);
        let mut map = Vec::new();
        std::mem::swap(&mut map, &mut self.map);
        match found {
            Some(i) => {
                map.set(i, (key, value));
            },
            None => {
                map.push((key, value));
            },
        }
        self.map = map;
        proof {
            use_type_invariant(&*self);
            self.lemma_view();
            let j_new: int = match found {
                Some(i) => i as int,
                None => before.map@.len() as int,
            };
            assert(self.map@[j_new].0@ == k);
            assert forall|q: Seq<char>| #[trigger]
                before@.insert(k, m).contains_key(q) implies self@.contains_key(q) && self@[q]
                == before@.insert(k, m)[q] by {
                if q != k {
                    assert(before@.contains_key(q));
                    let j = choose|j: int| 0 <= j < before.map@.len() && #[trigger] before.map@[j].0@ == q;
                    assert(self.map@[j] == before.map@[j]);
                }
            }
            assert forall|q: Seq<char>| #[trigger]
                self@.contains_key(q) implies before@.insert(k, m).contains_key(q) by {
                let j = choose|j: int| 0 <= j < self.map@.len() && #[trigger] self.map@[j].0@ == q;
                if q != k {
                    assert(self.map@[j] == before.map@[j]);
                }
            }
            assert(self@ =~= before@.insert(k, m));
        }
    }
}

impl<F> View for ComplexDefinition<F> {
    type V = Map<Seq<char>, Meaning<F>>;

    closed spec fn view(&self) -> Map<Seq<char>, Meaning<F>> {
        Map::new(|k: Seq<char>| self.has_key(k), |k: Seq<char>| meaning(self.map@[self.key_index(k)].1))
    }
}

impl<F> ComplexDefinition<F> {
    /// A table with no names.
    pub fn new() -> (r: ComplexDefinition<F>)
        ensures
            r@ == Map::<Seq<char>, Meaning<F>>::empty(),
    {
        let r = ComplexDefinition { map: Vec::new() };
        assert(r@ =~= Map::<Seq<char>, Meaning<F>>::empty());
        r
    }

    /// Defines `name` as the value `value`.
    pub fn define_numeric(&mut self, name: &str, value: ComplexNode)
        ensures
            final(self)@ == old(self)@.insert(name@, Meaning::Value(value@)),
    {
        self.insert(String::from_str(name), ComplexValue::Value(value));
    }

    /// Defines `name` as the built-in function `f`.
    pub fn define_naitive_function(&mut self, name: &str, f: F)
        ensures
            final(self)@ == old(self)@.insert(name@, Meaning::NaitiveFunc(f)),
    {
        self.insert(String::from_str(name), ComplexValue::NaitiveFunc(f));
    }

    /// Defines `name` as the function of the arguments `var_def` whose value is `def`.
    pub fn define_function(&mut self, name: &str, var_def: ComplexNode, def: ComplexNode)
        ensures
            final(self)@ == old(self)@.insert(name@, Meaning::Func(var_def@, def@)),
    {
        self.insert(String::from_str(name), ComplexValue::Func(var_def, def));
    }

    /// Takes over every definition of `definitions`, replacing what a name was defined as.
    pub fn define_from_definition(&mut self, definitions: ComplexDefinition<F>)
        ensures
            final(self)@ == old(self)@.union_prefer_right(definitions@),
    {
        proof {
            use_type_invariant(&definitions);
            definitions.lemma_view();
        }
        let ghost other = definitions@;
        let ghost start = self@;
        let ComplexDefinition { map: mut rest } = definitions;
        let ghost all = rest@;
        while rest.len() > 0
            invariant
                rest@.len() <= all.len(),
                rest@ == all.subrange(0, rest@.len() as int),
                forall|i: int, j: int|
                    0 <= i < j < all.len() ==> #[trigger] all[i].0@ != #[trigger] all[j].0@,
                forall|i: int|
                    0 <= i < all.len() ==> #[trigger] other.contains_key(all[i].0@)
                        && other[all[i].0@] == meaning(all[i].1),
                forall|k: Seq<char>| #[trigger]
                    other.contains_key(k) ==> exists|i: int|
                        0 <= i < all.len() && #[trigger] all[i].0@ == k,
                self@ == start.union_prefer_right(
                    Map::new(
                        |k: Seq<char>|
                            exists|i: int|
                                rest@.len() <= i < all.len() && #[trigger] all[i].0@ == k,
                        |k: Seq<char>| other[k],
                    ),
                ),
            decreases rest.len(),
        {
            let ghost before = self@;
            let ghost n = rest@.len() - 1;
            let (key, value) = rest.pop().unwrap();
            assert(all[n] == (key, value));
            self.insert(key, value);
            proof {
                let m_before = Map::new(
                    |k: Seq<char>| exists|i: int| n + 1 <= i < all.len() && #[trigger] all[i].0@ == k,
                    |k: Seq<char>| other[k],
                );
                let m_after = Map::new(
                    |k: Seq<char>| exists|i: int| n <= i < all.len() && #[trigger] all[i].0@ == k,
                    |k: Seq<char>| other[k],
                );
                assert forall|q: Seq<char>| #[trigger] m_after.contains_key(q) implies (q == key@
                    || m_before.contains_key(q)) by {
                    let i = choose|i: int| n <= i < all.len() && #[trigger] all[i].0@ == q;
                    if i != n {
                        assert(n + 1 <= i);
                    }
                }
                assert forall|q: Seq<char>| #[trigger] m_before.insert(key@, other[key@]).contains_key(q)
                    implies m_after.contains_key(q) by {
                    if q == key@ {
                        assert(all[n].0@ == q);
                    } else {
                        let i = choose|i: int| n + 1 <= i < all.len() && #[trigger] all[i].0@ == q;
                        assert(all[i].0@ == q);
                    }
                }
                assert(m_after =~= m_before.insert(key@, other[key@]));
                assert(rest@ =~= all.subrange(0, rest@.len() as int));
                assert(other.contains_key(all[n].0@));
                assert(other[key@] == meaning(value));
                assert(self@ =~= start.union_prefer_right(m_after));
            }
        }
        proof {
            let m_all = Map::new(
                |k: Seq<char>| exists|i: int| 0 <= i < all.len() && #[trigger] all[i].0@ == k,
                |k: Seq<char>| other[k],
            );
            assert(m_all =~= other);
        }
    }

    /// Defines the name given by the formula `name` as `def`: when `name` is
    /// a call such as `f(x)`, as the function of `x` with value `def`,
    /// otherwise as the value `def`.
    pub fn define(&mut self, name: &str, def: &str)
        requires
            spec_parse(name@) matches Ok(Some(_)),
            spec_parse(def@) matches Ok(Some(_)),
        ensures
            final(self)@ == after_define(old(self)@, name@, def@),
    {
        let parsed_name = match ComplexNode::parse(name) {
            Some(x) => x,
            None => {
                assert(false);
                return ;
            },
        };
        let parsed_def = match ComplexNode::parse(def) {
            Some(x) => x,
            None => {
                assert(false);
                return ;
            },
        };
        let fname = parsed_name.get_name();
        let ComplexNode { t: _, left: _, right } = *parsed_name;
        match right {
            Some(arg) => {
                self.insert(fname, ComplexValue::Func(*arg, *parsed_def));
            },
            None => {
                self.insert(fname, ComplexValue::Value(*parsed_def));
            },
        }
    }

    /// Defines `name` as `def` when both read to a formula, and tells
    /// whether it did.
    fn define_if_readable(&mut self, name: &str, def: &str) -> (done: bool)
        ensures
            done == (reads_to_formula(name@) && reads_to_formula(def@)),
            final(self)@ == after_define_if_readable(old(self)@, name@, def@),
    {
        let n = ComplexNode::try_parse(name);
        let d = ComplexNode::try_parse(def);
        match (n, d) {
            (Ok(Some(_)), Ok(Some(_))) => {
                self.define(name, def);
                true
            },
            _ => false,
        }
    }

    /// Defines the functions that every standard table holds as formulas
    /// over its constants and built-in functions: `exp`, `cos`, `sin`, `tan`,
    /// `sqrt`, `abs`, `norm` and the two angle conversions.
    pub fn define_standard_formulas(&mut self)
        ensures
            final(self)@ == with_standard_formulas(old(self)@),
    {
        self.define_if_readable("exp(x)", "e^x");
        self.define_if_readable("cos(x)", "(1/2)*(exp(i*x)+exp(-i*x))");
        self.define_if_readable("sin(x)", "(1/2i)*(exp(i*x)-exp(-i*x))");
        self.define_if_readable("tan(x)", "sin(x)/cos(x)");
        self.define_if_readable("sqrt(x)", "x^(1/2)");
        self.define_if_readable("abs(x)", "sqrt(norm(x))");
        self.define_if_readable("norm(x)", "x*(real(x)-imaginary(x))");
        self.define_if_readable("to_radians(x)", "(x/180)*PI");
        self.define_if_readable("to_degrees(x)", "x*(180/PI)");
    }

    /// Removes the definition of `name`.
    pub fn remove(&mut self, name: &str)
        ensures
            final(self)@ == old(self)@.remove(name@),
    {
        proof {
            use_type_invariant(&*self);
            self.lemma_view();
        }
        let ghost before = *self;
        let key = String::from_str(name);
        match self.position(&key) {
            Some(i) => {
                let mut map = Vec::new();
                std::mem::swap(&mut map, &mut self.map);
                map.remove(i);
                self.map = map;
                proof {
                    use_type_invariant(&*self);
                    self.lemma_view();
                    assert forall|q: Seq<char>| #[trigger]
                        before@.remove(name@).contains_key(q) implies self@.contains_key(q)
                        && self@[q] == before@[q] by {
                        let j = choose|j: int| 0 <= j < before.map@.len() && #[trigger] before.map@[j].0@ == q;
                        if j < i {
                            assert(self.map@[j] == before.map@[j]);
                        } else {
                            assert(j != i);
                            assert(self.map@[j - 1] == before.map@[j]);
                        }
                    }
                    assert forall|q: Seq<char>| #[trigger]
                        self@.contains_key(q) implies before@.remove(name@).contains_key(q) by {
                        let j = choose|j: int| 0 <= j < self.map@.len() && #[trigger] self.map@[j].0@ == q;
                        if j < i {
                            assert(self.map@[j] == before.map@[j]);
                            assert(before.map@[j].0@ != before.map@[i as int].0@);
                        } else {
                            assert(self.map@[j] == before.map@[j + 1]);
                            assert(before.map@[i as int].0@ != before.map@[j + 1].0@);
                        }
                    }
                    assert(self@ =~= before@.remove(name@));
                }
            },
            None => {
                assert(self@ =~= before@.remove(name@));
            },
        }
    }

    /// Whether `name` is defined.
    pub fn contains(&self, name: &str) -> (r: bool)
        ensures
            r == self@.contains_key(name@),
    {
        proof {
            use_type_invariant(self);
            self.lemma_view();
        }
        let key = String::from_str(name);
        self.position(&key).is_some()
    }

    /// The definition of `name` as a formula: a value's formula, or a
    /// function's formula of its value. A built-in function has none.
    pub fn get(&self, name: &str) -> (r: Result<ComplexNode, CalculationError>)
        ensures
            self@.contains_key(name@) ==> match self@[name@] {
                Meaning::Value(v) => (r matches Ok(n) && n@ == v),
                Meaning::Func(_, f) => (r matches Ok(n) && n@ == f),
                Meaning::NaitiveFunc(_) => (r matches Err(CalculationError::Unknown(m)) && m@
                    == "You can not get "@ + name@ + ". Because it is built-in function or value."@),
            },
            !self@.contains_key(name@) ==> (r matches Err(CalculationError::ValueNotDefined(s)) && s@
                == name@),
    {
        proof {
            use_type_invariant(self);
            self.lemma_view();
        }
        let key = String::from_str(name);
        match self.position(&key) {
            Some(i) => match &self.map[i].1 {
                ComplexValue::Value(v) => Ok(v.clone()),
                ComplexValue::Func(_, f) => Ok(f.clone()),
                ComplexValue::NaitiveFunc(_) => {
                    let mut m = String::from_str("You can not get ");
                    m.append(name);
                    m.append(". Because it is built-in function or value.");
                    Err(CalculationError::Unknown(m))
                },
            },
            None => Err(CalculationError::ValueNotDefined(key)),
        }
    }

    /// Whether `name` is defined as a value.
    pub fn is_variable(&self, name: &str) -> (r: bool)
        ensures
            r == (self@.contains_key(name@) && self@[name@] is Value),
    {
        proof {
            use_type_invariant(self);
            self.lemma_view();
        }
        let key = String::from_str(name);
        match self.position(&key) {
            Some(i) => match &self.map[i].1 {
                ComplexValue::Value(_) => true,
                _ => false,
            },
            None => false,
        }
    }

    /// Whether `name` is not defined as a value (a function, or undefined).
    pub fn is_function(&self, name: &str) -> (r: bool)
        ensures
            r == !(self@.contains_key(name@) && self@[name@] is Value),
    {
        !self.is_variable(name)
    }

    /// The defined names.
    pub fn get_keys(&self) -> (r: Vec<&str>)
        ensures
            r@.len() == self@.dom().len(),
            forall|i: int| 0 <= i < r@.len() ==> self@.contains_key(#[trigger] r@[i]@),
            forall|k: Seq<char>|
                #[trigger] self@.contains_key(k) ==> exists|i: int| 0 <= i < r@.len() && r@[i]@ == k,
            forall|i: int, j: int| 0 <= i < j < r@.len() ==> #[trigger] r@[i]@ != #[trigger] r@[j]@,
    {
        proof {
            use_type_invariant(self);
            self.lemma_view();
        }
        let mut r: Vec<&str> = Vec::new();
        let mut i: usize = 0;
        while i < self.map.len()
            invariant
                i <= self.map@.len(),
                r@.len() == i,
                forall|j: int| 0 <= j < i ==> #[trigger] r@[j]@ == self.map@[j].0@,
            decreases self.map.len() - i,
        {
            r.push(self.map[i].0.as_str());
            i = i + 1;
        }
        proof {
            let keys = Seq::new(r@.len(), |j: int| r@[j]@);
            assert forall|j: int| 0 <= j < r@.len() implies self@.contains_key(#[trigger] r@[j]@) by {
                assert(r@[j]@ == self.map@[j].0@);
            }
            assert forall|k: Seq<char>| #[trigger] self@.contains_key(k) implies exists|j: int|
                0 <= j < r@.len() && r@[j]@ == k by {
                let j = choose|j: int| 0 <= j < self.map@.len() && #[trigger] self.map@[j].0@ == k;
                assert(r@[j]@ == k);
            }
            assert forall|a: int, b: int| 0 <= a < b < r@.len() implies #[trigger] r@[a]@ != #[trigger] r@[b]@ by {
                assert(r@[a]@ == self.map@[a].0@);
                assert(r@[b]@ == self.map@[b].0@);
            }
            keys.unique_seq_to_set();
            assert(keys.to_set() =~= self@.dom()) by {
                assert forall|k: Seq<char>| keys.to_set().contains(k) implies self@.dom().contains(k) by {
                    let j = choose|j: int| 0 <= j < keys.len() && keys[j] == k;
                    assert(r@[j]@ == k);
                }
                assert forall|k: Seq<char>| self@.dom().contains(k) implies keys.to_set().contains(k) by {
                    let j = choose|j: int| 0 <= j < self.map@.len() && #[trigger] self.map@[j].0@ == k;
                    assert(keys[j] == k);
                }
            }
        }
        r
    }
}


/// `b` is a copy of `a`: equal, except that a built-in function is cloned.
pub open spec fn copied<F: Clone>(a: Meaning<F>, b: Meaning<F>) -> bool {
    match (a, b) {
        (Meaning::NaitiveFunc(f), Meaning::NaitiveFunc(g)) => cloned::<F>(f, g),
        _ => a == b,
    }
}

impl<F: Clone> Clone for ComplexDefinition<F> {
    fn clone(&self) -> (r: Self)
        ensures
            r@.dom() == self@.dom(),
            forall|k: Seq<char>| #[trigger] self@.contains_key(k) ==> copied(self@[k], r@[k]),
    {
        proof {
            use_type_invariant(self);
            self.lemma_view();
        }
        let mut map: Vec<(String, ComplexValue<F>)> = Vec::new();
        let mut i: usize = 0;
        while i < self.map.len()
            invariant
                i <= self.map@.len(),
                map@.len() == i,
                forall|j: int| 0 <= j < i ==> #[trigger] map@[j].0@ == self.map@[j].0@,
                forall|j: int| 0 <= j < i ==> copied(meaning(self.map@[j].1), #[trigger] meaning(map@[j].1)),
            decreases self.map.len() - i,
        {
            let key = self.map[i].0.clone();
            let value = match &self.map[i].1 {
                ComplexValue::Func(a, f) => ComplexValue::Func(a.clone(), f.clone()),
                ComplexValue::NaitiveFunc(f) => ComplexValue::NaitiveFunc(f.clone()),
                ComplexValue::Value(x) => ComplexValue::Value(x.clone()),
            };
            map.push((key, value));
            i = i + 1;
        }
        proof {
            assert forall|a: int, b: int| 0 <= a < b < map@.len() implies #[trigger] map@[a].0@
                != #[trigger] map@[b].0@ by {
                assert(map@[a].0@ == self.map@[a].0@);
                assert(map@[b].0@ == self.map@[b].0@);
            }
        }
        let r = ComplexDefinition { map };
        proof {
            r.lemma_view();
            assert forall|k: Seq<char>| #[trigger] self@.contains_key(k) implies r@.contains_key(k)
                && copied(self@[k], r@[k]) by {
                let j = choose|j: int| 0 <= j < self.map@.len() && #[trigger] self.map@[j].0@ == k;
                assert(r.map@[j].0@ == k);
            }
            assert forall|k: Seq<char>| #[trigger] r@.contains_key(k) implies self@.contains_key(k) by {
                let j = choose|j: int| 0 <= j < r.map@.len() && #[trigger] r.map@[j].0@ == k;
                assert(self.map@[j].0@ == k);
            }
            assert(r@.dom() =~= self@.dom());
        }
        r
    }
}

/// The text of one definition: the drawing of its formula, or a mark for a
/// built-in function.
pub open spec fn meaning_text<F>(m: Meaning<F>) -> Seq<char> {
    match m {
        Meaning::Func(_, f) => drawing(f, 0),
        Meaning::Value(v) => drawing(v, 0),
        Meaning::NaitiveFunc(_) => "###NAITIVE CODE###"@,
    }
}

/// The listing of the definitions of the names `ks`, in that order: each
/// name, a colon and a line break, its text, and a line break.
pub open spec fn listing<F>(m: Map<Seq<char>, Meaning<F>>, ks: Seq<Seq<char>>) -> Seq<char>
    decreases ks.len(),
{
    if ks.len() == 0 {
        Seq::empty()
    } else {
        listing(m, ks.drop_last()) + ks.last() + ":\n"@ + meaning_text(m[ks.last()]) + seq!['\n']
    }
}

impl<F> ComplexDefinition<F> {
    /// The listing of every definition (each name once, in some order).
    pub fn to_string(&self) -> (r: String)
        ensures
            exists|ks: Seq<Seq<char>>|
                ks.no_duplicates() && ks.to_set() == self@.dom() && r@ == listing(self@, ks),
    {
        proof {
            use_type_invariant(self);
            self.lemma_view();
        }
        let mut result = String::new();
        let mut i: usize = 0;
        let ghost keys = Seq::new(self.map@.len(), |j: int| self.map@[j].0@);
        while i < self.map.len()
            invariant
                i <= self.map@.len(),
                keys == Seq::new(self.map@.len(), |j: int| self.map@[j].0@),
                forall|j: int|
                    0 <= j < self.map@.len() ==> #[trigger] self@.contains_key(self.map@[j].0@)
                        && self@[self.map@[j].0@] == meaning(self.map@[j].1),
                result@ == listing(self@, keys.take(i as int)),
            decreases self.map.len() - i,
        {
            let ghost before = result@;
            assert(self@.contains_key(self.map@[i as int].0@));
            assert(self@[self.map@[i as int].0@] == meaning(self.map@[i as int].1));
            result.append(self.map[i].0.as_str());
            result.append(":\n");
            match &self.map[i].1 {
                ComplexValue::Func(_, f) => {
                    let d = f.display_string();
                    result.append(d.as_str());
                },
                ComplexValue::Value(v) => {
                    let d = v.display_string();
                    result.append(d.as_str());
                },
                ComplexValue::NaitiveFunc(_) => {
                    result.append("###NAITIVE CODE###");
                },
            }
            push_char(&mut result, '\n');
            proof {
                assert(keys.take(i + 1).drop_last() =~= keys.take(i as int));
                assert(keys.take(i + 1).last() == self.map@[i as int].0@);
                assert(result@ =~= before + self.map@[i as int].0@ + ":\n"@ + meaning_text(
                    self@[self.map@[i as int].0@],
                ) + seq!['\n']);
            }
            i = i + 1;
        }
        proof {
            assert(keys.take(self.map@.len() as int) =~= keys);
            assert forall|a: int, b: int| 0 <= a < b < keys.len() implies keys[a] != keys[b] by {
                assert(self.map@[a].0@ != self.map@[b].0@);
            }
            assert(keys.to_set() =~= self@.dom()) by {
                assert forall|k: Seq<char>| keys.to_set().contains(k) implies self@.dom().contains(k) by {
                    let j = choose|j: int| 0 <= j < keys.len() && keys[j] == k;
                    assert(self@.contains_key(self.map@[j].0@));
                }
                assert forall|k: Seq<char>| self@.dom().contains(k) implies keys.to_set().contains(k) by {
                    let j = choose|j: int| 0 <= j < self.map@.len() && #[trigger] self.map@[j].0@ == k;
                    assert(keys[j] == k);
                }
            }
        }
        result
    }
}


/// After a name is defined as `x`, the table holds `x` for that name, and
/// every other name keeps its definition.
pub proof fn law_define_then_read<F>(m: Map<Seq<char>, Meaning<F>>, name: Seq<char>, x: Meaning<F>)
    ensures
        m.insert(name, x).contains_key(name),
        m.insert(name, x)[name] == x,
        forall|other: Seq<char>|
            other != name ==> (#[trigger] m.insert(name, x).contains_key(other) == m.contains_key(
                other,
            ) && (m.contains_key(other) ==> m.insert(name, x)[other] == m[other])),
{
}

/// After a name is removed, it is not defined, and every other name keeps
/// its definition.
pub proof fn law_remove_then_absent<F>(m: Map<Seq<char>, Meaning<F>>, name: Seq<char>)
    ensures
        !m.remove(name).contains_key(name),
        forall|other: Seq<char>|
            other != name ==> (#[trigger] m.remove(name).contains_key(other) == m.contains_key(other)
                && (m.contains_key(other) ==> m.remove(name)[other] == m[other])),
{
}

/// Taking over a table: each name defined there takes that definition;
/// every other name keeps its own.
pub proof fn law_take_over<F>(m: Map<Seq<char>, Meaning<F>>, other: Map<Seq<char>, Meaning<F>>)
    ensures
        forall|k: Seq<char>| #[trigger]
            other.contains_key(k) ==> m.union_prefer_right(other).contains_key(k)
                && m.union_prefer_right(other)[k] == other[k],
        forall|k: Seq<char>|
            !other.contains_key(k) ==> (#[trigger] m.union_prefer_right(other).contains_key(k)
                == m.contains_key(k) && (m.contains_key(k) ==> m.union_prefer_right(other)[k]
                == m[k])),
{
}

/// Defining a word of letters defines that word as a value.
pub proof fn law_define_word<F>(m: Map<Seq<char>, Meaning<F>>, name: Seq<char>, def: Seq<char>)
    requires
        name.len() > 0,
        forall|k: int| 0 <= k < name.len() ==> is_alpha(#[trigger] name[k]),
        spec_parse(def) matches Ok(Some(_)),
    ensures
        after_define(m, name, def) == m.insert(name, Meaning::Value(spec_parse(def)->Ok_0->Some_0)),
{
    law_parse_word(name);
}

/// Defining a call `f(x)` of words defines `f` as a function of `x`.
pub proof fn law_define_call<F>(m: Map<Seq<char>, Meaning<F>>, f: Seq<char>, x: Seq<char>, def: Seq<char>)
    requires
        f.len() > 0,
        x.len() > 0,
        forall|k: int| 0 <= k < f.len() ==> is_alpha(#[trigger] f[k]),
        forall|k: int| 0 <= k < x.len() ==> is_alpha(#[trigger] x[k]),
        spec_parse(def) matches Ok(Some(_)),
    ensures
        after_define(m, f + seq!['('] + x + seq![')'], def) == m.insert(
            f,
            Meaning::Func(leaf(Kind::Name(x)), spec_parse(def)->Ok_0->Some_0),
        ),
{
    law_parse_call(f, x);
}


/// How a call of a defined name is evaluated.
pub enum Evaluation<F> {
    /// Evaluate this formula.
    Formula(ComplexNode),
    /// Evaluate the arguments in turn, define each parameter name as the
    /// value of the argument at the same place, then evaluate the body.
    Apply(Vec<String>, Vec<ComplexNode>, ComplexNode),
    /// Call the built-in function with the arguments' formula.
    Native(F, ComplexNode),
}

impl<F: Clone> ComplexDefinition<F> {
    /// What calling `name` with the formula `arguments` comes to: a value's
    /// formula; for a function, its parameter names (the names of the items
    /// of its argument formula), the items of `arguments` and its body; for a
    /// built-in function, the function and `arguments`.
    pub fn resolve_call(&self, name: &str, arguments: &ComplexNode) -> (r: Result<
        Evaluation<F>,
        CalculationError,
    >)
        ensures
            !self@.contains_key(name@) ==> (r matches Err(CalculationError::ValueNotDefined(s))
                && s@ == name@),
            self@.contains_key(name@) ==> match self@[name@] {
                Meaning::Value(v) => (r matches Ok(Evaluation::Formula(n)) && n@ == v),
                Meaning::Func(a, f) => (r matches Ok(Evaluation::Apply(ps, args, body)) && ps@.len()
                    == vec_of(a).len() && (forall|i: int|
                    0 <= i < ps@.len() ==> #[trigger] ps@[i]@ == name_of(vec_of(a)[i]))
                    && view_seq(args@) == vec_of(arguments@) && body@ == f),
                Meaning::NaitiveFunc(g) => (r matches Ok(Evaluation::Native(h, n)) && cloned(g, h)
                    && n@ == arguments@),
            },
    {
        proof {
            use_type_invariant(self);
            self.lemma_view();
        }
        let key = String::from_str(name);
        match self.position(&key) {
            Some(i) => match &self.map[i].1 {
                ComplexValue::Value(v) => Ok(Evaluation::Formula(v.clone())),
                ComplexValue::Func(def_arg, f) => {
                    let params = def_arg.get_vec();
                    let mut names: Vec<String> = Vec::new();
                    let mut j: usize = 0;
                    while j < params.len()
                        invariant
                            j <= params@.len(),
                            names@.len() == j,
                            forall|k: int| 0 <= k < j ==> #[trigger] names@[k]@ == name_of(params@[k]@),
                        decreases params.len() - j,
                    {
                        names.push(params[j].to_string());
                        j = j + 1;
                    }
                    proof {
                        assert forall|k: int| 0 <= k < names@.len() implies #[trigger] names@[k]@
                            == name_of(vec_of(def_arg@)[k]) by {
                            assert(view_seq(params@)[k] == params@[k]@);
                        }
                    }
                    Ok(Evaluation::Apply(names, arguments.get_vec(), f.clone()))
                },
                ComplexValue::NaitiveFunc(g) => Ok(Evaluation::Native(g.clone(), arguments.clone())),
            },
            None => Err(CalculationError::ValueNotDefined(key)),
        }
    }
}

/// The listing of the names `ks` shows each of them, in its place, followed
/// by a colon, a line break and the text of what it is defined as: the
/// drawing of the formula that `get` gives for it (a function's body, not
/// its parameter; a value's formula), or the mark of a built-in function.
pub proof fn law_listing_shows_definitions<F>(m: Map<Seq<char>, Meaning<F>>, ks: Seq<Seq<char>>, i: int)
    requires
        0 <= i < ks.len(),
    ensures
        (listing(m, ks.take(i)) + ks[i] + ":\n"@ + match m[ks[i]] {
            Meaning::Func(_, f) => drawing(f, 0),
            Meaning::Value(v) => drawing(v, 0),
            Meaning::NaitiveFunc(_) => "###NAITIVE CODE###"@,
        } + seq!['\n']).is_prefix_of(listing(m, ks)),
    decreases ks.len(),
{
    let shown = match m[ks[i]] {
        Meaning::Func(_, f) => drawing(f, 0),
        Meaning::Value(v) => drawing(v, 0),
        Meaning::NaitiveFunc(_) => "###NAITIVE CODE###"@,
    };
    let head = listing(m, ks.take(i)) + ks[i] + ":\n"@ + shown + seq!['\n'];
    if i == ks.len() - 1 {
        assert(ks.drop_last() =~= ks.take(i));
        assert(listing(m, ks) =~= head);
    } else {
        law_listing_shows_definitions(m, ks.drop_last(), i);
        assert(ks.drop_last().take(i) =~= ks.take(i));
        assert(ks.drop_last()[i] == ks[i]);
        let before = listing(m, ks.drop_last());
        let last = ks.last() + ":\n"@ + meaning_text(m[ks.last()]) + seq!['\n'];
        assert(listing(m, ks) =~= before + last);
        assert(head =~= listing(m, ks).subrange(0, head.len() as int));
    }
}

} // verus!
