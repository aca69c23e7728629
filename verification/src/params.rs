//! Parameter bundles: the plain configuration values that one component
//! consumes when it is built.

use vstd::prelude::*;

verus! {

/// A plain configuration value.
#[derive(Debug)]
pub enum ParamValue {
    Text(String),
    Number(usize),
}

/// One entry of a bundle: a value with an optional name. An entry without a
/// name is a "typed" parameter, found by its value kind alone.
#[derive(Debug)]
pub struct Param {
    pub name: Option<String>,
    pub value: ParamValue,
}

/// The first text value under `name` among `s`, in insertion order.
pub open spec fn named_text_in(s: Seq<Param>, name: Seq<char>) -> Option<Seq<char>>
    decreases s.len(),
{
    if s.len() == 0 {
        None
    } else {
        match s[0] {
            Param { name: Some(n), value: ParamValue::Text(t) } => if n@ == name {
                Some(t@)
            } else {
                named_text_in(s.drop_first(), name)
            },
            _ => named_text_in(s.drop_first(), name),
        }
    }
}

/// The first number among the unnamed entries of `s`, in insertion order.
pub open spec fn typed_number_in(s: Seq<Param>) -> Option<usize>
    decreases s.len(),
{
    if s.len() == 0 {
        None
    } else {
        match s[0] {
            Param { name: None, value: ParamValue::Number(v) } => Some(v),
            _ => typed_number_in(s.drop_first()),
        }
    }
}

/// The first text among the unnamed entries of `s`, in insertion order.
pub open spec fn typed_text_in(s: Seq<Param>) -> Option<Seq<char>>
    decreases s.len(),
{
    if s.len() == 0 {
        None
    } else {
        match s[0] {
            Param { name: None, value: ParamValue::Text(t) } => Some(t@),
            _ => typed_text_in(s.drop_first()),
        }
    }
}

/// A per-component bundle of parameters, supplied before the build starts and
/// consumed as a whole when the component is built. A missing bundle is a
/// valid configuration: building then falls back to the empty bundle.
#[derive(Debug)]
pub struct ParamBundle {
    entries: Vec<Param>,
}

impl View for ParamBundle {
    type V = Seq<Param>;

    closed spec fn view(&self) -> Seq<Param> {
        self.entries@
    }
}

impl ParamBundle {
    /// The empty bundle: the default when the caller supplied nothing.
    pub fn empty() -> (res: ParamBundle)
        ensures
            res@ == Seq::<Param>::empty(),
    {
        ParamBundle { entries: Vec::new() }
    }

    /// Number of entries in the bundle.
    pub fn len(&self) -> (n: usize)
        ensures
            n == self@.len(),
    {
        self.entries.len()
    }

    /// Appends a named text parameter.
    pub fn add_named_text(&mut self, name: String, value: String)
        ensures
            final(self)@ == old(self)@.push(
                (Param { name: Some(name), value: ParamValue::Text(value) }),
            ),
    {
        self.entries.push(Param { name: Some(name), value: ParamValue::Text(value) });
    }

    /// Appends an unnamed number parameter.
    pub fn add_typed_number(&mut self, value: usize)
        ensures
            final(self)@ == old(self)@.push((Param { name: None, value: ParamValue::Number(value) })),
    {
        self.entries.push(Param { name: None, value: ParamValue::Number(value) });
    }

    /// Appends an unnamed text parameter.
    pub fn add_typed_text(&mut self, value: String)
        ensures
            final(self)@ == old(self)@.push((Param { name: None, value: ParamValue::Text(value) })),
    {
        self.entries.push(Param { name: None, value: ParamValue::Text(value) });
    }

    /// The first text value stored under `name`, if any.
    pub fn named_text(&self, name: &String) -> (res: Option<String>)
        ensures
            match named_text_in(self@, name@) {
                Some(t) => res matches Some(r) && r@ == t,
                None => res is None,
            },
    {
        let n = self.entries.len();
        let mut i: usize = 0;
        proof {
            assert(self@.skip(0) =~= self@);
        }
        while i < n
            invariant
                i <= n,
                n == self@.len(),
                named_text_in(self@, name@) == named_text_in(self@.skip(i as int), name@),
            decreases n - i,
        {
            let e = &self.entries[i];
            proof {
                assert(self@.skip(i as int)[0] == self@[i as int]);
                assert(self@.skip(i as int).drop_first() =~= self@.skip(i as int + 1));
            }
            match (&e.name, &e.value) {
                (Some(en), ParamValue::Text(t)) => {
                    if *en == *name {
                        return Some(t.clone());
                    }
                },
                _ => {},
            }
            i = i + 1;
        }
        proof {
            assert(self@.skip(n as int) =~= Seq::<Param>::empty());
        }
        None
    }

    /// The first unnamed number parameter, if any.
    pub fn typed_number(&self) -> (res: Option<usize>)
        ensures
            res == typed_number_in(self@),
    {
        let n = self.entries.len();
        let mut i: usize = 0;
        proof {
            assert(self@.skip(0) =~= self@);
        }
        while i < n
            invariant
                i <= n,
                n == self@.len(),
                typed_number_in(self@) == typed_number_in(self@.skip(i as int)),
            decreases n - i,
        {
            let e = &self.entries[i];
            proof {
                assert(self@.skip(i as int)[0] == self@[i as int]);
                assert(self@.skip(i as int).drop_first() =~= self@.skip(i as int + 1));
            }
            match (&e.name, &e.value) {
                (None, ParamValue::Number(v)) => {
                    return Some(*v);
                },
                _ => {},
            }
            i = i + 1;
        }
        proof {
            assert(self@.skip(n as int) =~= Seq::<Param>::empty());
        }
        None
    }

    /// The first unnamed text parameter, if any.
    pub fn typed_text(&self) -> (res: Option<String>)
        ensures
            match typed_text_in(self@) {
                Some(t) => res matches Some(r) && r@ == t,
                None => res is None,
            },
    {
        let n = self.entries.len();
        let mut i: usize = 0;
        proof {
            assert(self@.skip(0) =~= self@);
        }
        while i < n
            invariant
                i <= n,
                n == self@.len(),
                typed_text_in(self@) == typed_text_in(self@.skip(i as int)),
            decreases n - i,
        {
            let e = &self.entries[i];
            proof {
                assert(self@.skip(i as int)[0] == self@[i as int]);
                assert(self@.skip(i as int).drop_first() =~= self@.skip(i as int + 1));
            }
            match (&e.name, &e.value) {
                (None, ParamValue::Text(t)) => {
                    return Some(t.clone());
                },
                _ => {},
            }
            i = i + 1;
        }
        proof {
            assert(self@.skip(n as int) =~= Seq::<Param>::empty());
        }
        None
    }
}

} // verus!
