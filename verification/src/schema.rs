//! The versioned module schema: parsing, well-formedness and layout
//! lookup.

use crate::encode::chars_eq;
use crate::layout::{
    distinct_names, field_views_of, lemma_field_views_of, wf_layout, LayoutV, TypeLayout, Width,
};
use vstd::prelude::*;
use vstd::utf8::is_scalar;

verus! {

/// One exposed method: its name, its parameter layout and, where the
/// method declares one, its return layout.
#[derive(Debug, PartialEq, Eq)]
pub struct MethodSchema {
    pub name: Vec<char>,
    pub param: TypeLayout,
    pub ret: Option<TypeLayout>,
}

/// One module of the schema: its name and its methods.
#[derive(Debug, PartialEq, Eq)]
pub struct ModuleSchema {
    pub name: Vec<char>,
    pub methods: Vec<MethodSchema>,
}

/// The root schema artifact: a versioned collection of modules, immutable
/// once parsed.
#[derive(Debug, PartialEq, Eq)]
pub struct VersionedModuleSchema {
    pub modules: Vec<ModuleSchema>,
}

/// The model of a method.
#[verifier::ext_equal]
pub struct MethodV {
    pub name: Seq<char>,
    pub param: LayoutV,
    pub ret: Option<LayoutV>,
}

/// The model of a module.
#[verifier::ext_equal]
pub struct ModuleV {
    pub name: Seq<char>,
    pub methods: Seq<MethodV>,
}

/// The model of a schema.
#[verifier::ext_equal]
pub struct SchemaV {
    pub modules: Seq<ModuleV>,
}

impl View for MethodSchema {
    type V = MethodV;

    open spec fn view(&self) -> MethodV {
        MethodV {
            name: self.name@,
            param: self.param@,
            ret: match self.ret {
                Some(l) => Some(l@),
                None => None,
            },
        }
    }
}

/// Models of a method list, in order.
pub open spec fn method_views_of(s: Seq<MethodSchema>) -> Seq<MethodV>
    decreases s,
{
    if s.len() == 0 {
        Seq::empty()
    } else {
        seq![s[0]@] + method_views_of(s.drop_first())
    }
}

impl View for ModuleSchema {
    type V = ModuleV;

    open spec fn view(&self) -> ModuleV {
        ModuleV { name: self.name@, methods: method_views_of(self.methods@) }
    }
}

/// Models of a module list, in order.
pub open spec fn module_views_of(s: Seq<ModuleSchema>) -> Seq<ModuleV>
    decreases s,
{
    if s.len() == 0 {
        Seq::empty()
    } else {
        seq![s[0]@] + module_views_of(s.drop_first())
    }
}

impl View for VersionedModuleSchema {
    type V = SchemaV;

    open spec fn view(&self) -> SchemaV {
        SchemaV { modules: module_views_of(self.modules@) }
    }
}

pub proof fn lemma_method_views_of(s: Seq<MethodSchema>)
    ensures
        method_views_of(s).len() == s.len(),
        forall|i: int| 0 <= i < s.len() ==> method_views_of(s)[i] == #[trigger] s[i]@,
    decreases s,
{
    if s.len() > 0 {
        lemma_method_views_of(s.drop_first());
        assert forall|i: int| 0 <= i < s.len() implies method_views_of(s)[i] == #[trigger] s[i]@
        by {
            if i > 0 {
                assert(s.drop_first()[i - 1] == s[i]);
            }
        }
    }
}

pub proof fn lemma_module_views_of(s: Seq<ModuleSchema>)
    ensures
        module_views_of(s).len() == s.len(),
        forall|i: int| 0 <= i < s.len() ==> module_views_of(s)[i] == #[trigger] s[i]@,
    decreases s,
{
    if s.len() > 0 {
        lemma_module_views_of(s.drop_first());
        assert forall|i: int| 0 <= i < s.len() implies module_views_of(s)[i] == #[trigger] s[i]@
        by {
            if i > 0 {
                assert(s.drop_first()[i - 1] == s[i]);
            }
        }
    }
}

/// Every layout a method of the schema names is well formed.
pub open spec fn wf_methods(ms: Seq<MethodV>) -> bool
    decreases ms,
{
    if ms.len() == 0 {
        true
    } else {
        wf_layout(ms[0].param) && (match ms[0].ret {
            Some(l) => wf_layout(l),
            None => true,
        }) && wf_methods(ms.drop_first())
    }
}

pub open spec fn wf_modules(ms: Seq<ModuleV>) -> bool
    decreases ms,
{
    if ms.len() == 0 {
        true
    } else {
        wf_methods(ms[0].methods) && wf_modules(ms.drop_first())
    }
}

/// Well-formedness of a parsed schema: every layout it yields is well
/// formed, so encoding and decoding against it are defined.
pub open spec fn wf_schema(s: SchemaV) -> bool {
    wf_modules(s.modules)
}

/// The first module under a name, if any.
pub open spec fn find_module(ms: Seq<ModuleV>, name: Seq<char>) -> Option<ModuleV>
    decreases ms,
{
    if ms.len() == 0 {
        None
    } else if ms[0].name == name {
        Some(ms[0])
    } else {
        find_module(ms.drop_first(), name)
    }
}

/// The first method under a name, if any.
pub open spec fn find_method(ms: Seq<MethodV>, name: Seq<char>) -> Option<MethodV>
    decreases ms,
{
    if ms.len() == 0 {
        None
    } else if ms[0].name == name {
        Some(ms[0])
    } else {
        find_method(ms.drop_first(), name)
    }
}

/// The parameter layout the schema declares for a module's method.
pub open spec fn lookup_param(s: SchemaV, module: Seq<char>, method: Seq<char>) -> Option<LayoutV> {
    match find_module(s.modules, module) {
        Some(m) => match find_method(m.methods, method) {
            Some(meth) => Some(meth.param),
            None => None,
        },
        None => None,
    }
}

/// The return layout the schema declares for a module's method, where the
/// method declares one.
pub open spec fn lookup_return(s: SchemaV, module: Seq<char>, method: Seq<char>) -> Option<
    Option<LayoutV>,
> {
    match find_module(s.modules, module) {
        Some(m) => match find_method(m.methods, method) {
            Some(meth) => Some(meth.ret),
            None => None,
        },
        None => None,
    }
}

/// Schema lookup is a pure function of the parsed schema and the two
/// names: two lookups of the same pair on the same schema return
/// structurally identical layouts.
pub proof fn lemma_lookup_idempotent(
    s: SchemaV,
    module: Seq<char>,
    method: Seq<char>,
    r1: Option<LayoutV>,
    r2: Option<LayoutV>,
)
    requires
        r1 == lookup_param(s, module, method),
        r2 == lookup_param(s, module, method),
    ensures
        r1 == r2,
{
}

/// Why a lookup failed.
#[derive(Clone, Copy, Debug, PartialEq, Eq, Structural)]
pub enum SchemaLookupError {
    ModuleNotFound,
    MethodNotFound,
}

/// A looked-up layout of a well-formed schema is well formed.
proof fn lemma_wf_find(ms: Seq<MethodV>, name: Seq<char>)
    requires
        wf_methods(ms),
    ensures
        match find_method(ms, name) {
            Some(m) => wf_layout(m.param) && (match m.ret {
                Some(l) => wf_layout(l),
                None => true,
            }),
            None => true,
        },
    decreases ms,
{
    if ms.len() > 0 && ms[0].name != name {
        lemma_wf_find(ms.drop_first(), name);
    }
}

proof fn lemma_wf_find_module(ms: Seq<ModuleV>, name: Seq<char>)
    requires
        wf_modules(ms),
    ensures
        match find_module(ms, name) {
            Some(m) => wf_methods(m.methods),
            None => true,
        },
    decreases ms,
{
    if ms.len() > 0 && ms[0].name != name {
        lemma_wf_find_module(ms.drop_first(), name);
    }
}

impl VersionedModuleSchema {
    /// Looks up the parameter layout of a module's method; fails when the
    /// module or the method is absent.
    pub fn lookup_parameter_layout(&self, module: &Vec<char>, method: &Vec<char>) -> (r: Result<
        &TypeLayout,
        SchemaLookupError,
    >)
        ensures
            match r {
                Ok(l) => lookup_param(self@, module@, method@) == Some(l@) && (wf_schema(self@)
                    ==> wf_layout(l@)),
                Err(SchemaLookupError::ModuleNotFound) => find_module(self@.modules, module@)
                    is None && lookup_param(self@, module@, method@) is None,
                Err(SchemaLookupError::MethodNotFound) => find_module(self@.modules, module@)
                    is Some && lookup_param(self@, module@, method@) is None,
            },
    {
        proof {
            lemma_module_views_of(self.modules@);
        }
        let mut i: usize = 0;
        while i < self.modules.len()
            invariant
                i <= self.modules@.len(),
                module_views_of(self.modules@).len() == self.modules@.len(),
                forall|k: int|
                    0 <= k < self.modules@.len() ==> module_views_of(self.modules@)[k]
                        == #[trigger] self.modules@[k]@,
                forall|k: int| 0 <= k < i ==> (#[trigger] self.modules@[k]@.name) != module@,
            decreases self.modules@.len() - i,
        {
            if chars_eq(&self.modules[i].name, module) {
                let m = &self.modules[i];
                proof {
                    let mv = module_views_of(self.modules@);
                    assert(mv[i as int] == self.modules@[i as int]@);
                    assert forall|j: int| 0 <= j < i implies (#[trigger] mv[j].name) != module@ by {
                        assert(mv[j] == self.modules@[j]@);
                    }
                    lemma_find_module_at(mv, module@, i as int);
                    lemma_method_views_of(m.methods@);
                }
                let mut j: usize = 0;
                while j < m.methods.len()
                    invariant
                        j <= m.methods@.len(),
                        method_views_of(m.methods@).len() == m.methods@.len(),
                        forall|k: int|
                            0 <= k < m.methods@.len() ==> method_views_of(m.methods@)[k]
                                == #[trigger] m.methods@[k]@,
                        forall|k: int| 0 <= k < j ==> (#[trigger] m.methods@[k]@.name) != method@,
                        find_module(module_views_of(self.modules@), module@) == Some(m@),
                    decreases m.methods@.len() - j,
                {
                    if chars_eq(&m.methods[j].name, method) {
                        proof {
                            let hv = method_views_of(m.methods@);
                            assert(hv[j as int] == m.methods@[j as int]@);
                            assert forall|k: int| 0 <= k < j implies (#[trigger] hv[k].name)
                                != method@ by {
                                assert(hv[k] == m.methods@[k]@);
                            }
                            lemma_find_method_at(hv, method@, j as int);
                            if wf_schema(self@) {
                                lemma_wf_find_module(self@.modules, module@);
                                lemma_wf_find(m@.methods, method@);
                            }
                        }
                        return Ok(&m.methods[j].param);
                    }
                    j = j + 1;
                }
                proof {
                    let hv = method_views_of(m.methods@);
                    assert forall|k: int| 0 <= k < hv.len() implies (#[trigger] hv[k].name)
                        != method@ by {
                        assert(hv[k] == m.methods@[k]@);
                    }
                    lemma_find_method_none(hv, method@);
                }
                return Err(SchemaLookupError::MethodNotFound);
            }
            i = i + 1;
        }
        proof {
            let mv = module_views_of(self.modules@);
            assert forall|j: int| 0 <= j < mv.len() implies (#[trigger] mv[j].name) != module@ by {
                assert(mv[j] == self.modules@[j]@);
            }
            lemma_find_module_none(mv, module@);
        }
        Err(SchemaLookupError::ModuleNotFound)
    }

    /// Looks up the return layout of a module's method; `Ok(None)` means
    /// the method declares none.
    pub fn lookup_return_layout(&self, module: &Vec<char>, method: &Vec<char>) -> (r: Result<
        Option<&TypeLayout>,
        SchemaLookupError,
    >)
        ensures
            match r {
                Ok(Some(l)) => lookup_return(self@, module@, method@) == Some(Some(l@)) && (
                wf_schema(self@) ==> wf_layout(l@)),
                Ok(None) => lookup_return(self@, module@, method@) == Some(Option::<LayoutV>::None),
                Err(SchemaLookupError::ModuleNotFound) => find_module(self@.modules, module@)
                    is None && lookup_return(self@, module@, method@) is None,
                Err(SchemaLookupError::MethodNotFound) => find_module(self@.modules, module@)
                    is Some && lookup_return(self@, module@, method@) is None,
            },
    {
        proof {
            lemma_module_views_of(self.modules@);
        }
        let mut i: usize = 0;
        while i < self.modules.len()
            invariant
                i <= self.modules@.len(),
                module_views_of(self.modules@).len() == self.modules@.len(),
                forall|k: int|
                    0 <= k < self.modules@.len() ==> module_views_of(self.modules@)[k]
                        == #[trigger] self.modules@[k]@,
                forall|k: int| 0 <= k < i ==> (#[trigger] self.modules@[k]@.name) != module@,
            decreases self.modules@.len() - i,
        {
            if chars_eq(&self.modules[i].name, module) {
                let m = &self.modules[i];
                proof {
                    let mv = module_views_of(self.modules@);
                    assert(mv[i as int] == self.modules@[i as int]@);
                    assert forall|j: int| 0 <= j < i implies (#[trigger] mv[j].name) != module@ by {
                        assert(mv[j] == self.modules@[j]@);
                    }
                    lemma_find_module_at(mv, module@, i as int);
                    lemma_method_views_of(m.methods@);
                }
                let mut j: usize = 0;
                while j < m.methods.len()
                    invariant
                        j <= m.methods@.len(),
                        method_views_of(m.methods@).len() == m.methods@.len(),
                        forall|k: int|
                            0 <= k < m.methods@.len() ==> method_views_of(m.methods@)[k]
                                == #[trigger] m.methods@[k]@,
                        forall|k: int| 0 <= k < j ==> (#[trigger] m.methods@[k]@.name) != method@,
                        find_module(module_views_of(self.modules@), module@) == Some(m@),
                    decreases m.methods@.len() - j,
                {
                    if chars_eq(&m.methods[j].name, method) {
                        proof {
                            let hv = method_views_of(m.methods@);
                            assert(hv[j as int] == m.methods@[j as int]@);
                            assert forall|k: int| 0 <= k < j implies (#[trigger] hv[k].name)
                                != method@ by {
                                assert(hv[k] == m.methods@[k]@);
                            }
                            lemma_find_method_at(hv, method@, j as int);
                            if wf_schema(self@) {
                                lemma_wf_find_module(self@.modules, module@);
                                lemma_wf_find(m@.methods, method@);
                            }
                        }
                        match &m.methods[j].ret {
                            Some(l) => {
                                return Ok(Some(l));
                            },
                            None => {
                                return Ok(None);
                            },
                        }
                    }
                    j = j + 1;
                }
                proof {
                    let hv = method_views_of(m.methods@);
                    assert forall|k: int| 0 <= k < hv.len() implies (#[trigger] hv[k].name)
                        != method@ by {
                        assert(hv[k] == m.methods@[k]@);
                    }
                    lemma_find_method_none(hv, method@);
                }
                return Err(SchemaLookupError::MethodNotFound);
            }
            i = i + 1;
        }
        proof {
            let mv = module_views_of(self.modules@);
            assert forall|j: int| 0 <= j < mv.len() implies (#[trigger] mv[j].name) != module@ by {
                assert(mv[j] == self.modules@[j]@);
            }
            lemma_find_module_none(mv, module@);
        }
        Err(SchemaLookupError::ModuleNotFound)
    }
}

proof fn lemma_find_module_at(ms: Seq<ModuleV>, name: Seq<char>, k: int)
    requires
        0 <= k < ms.len(),
        ms[k].name == name,
        forall|j: int| 0 <= j < k ==> (#[trigger] ms[j].name) != name,
    ensures
        find_module(ms, name) == Some(ms[k]),
    decreases k,
{
    if k > 0 {
        assert(forall|j: int| 0 <= j < k - 1 ==> ms.drop_first()[j] == #[trigger] ms[j + 1]);
        assert(ms.drop_first()[k - 1] == ms[k]);
        lemma_find_module_at(ms.drop_first(), name, k - 1);
    }
}

proof fn lemma_find_module_none(ms: Seq<ModuleV>, name: Seq<char>)
    requires
        forall|j: int| 0 <= j < ms.len() ==> (#[trigger] ms[j].name) != name,
    ensures
        find_module(ms, name) is None,
    decreases ms,
{
    if ms.len() > 0 {
        assert(forall|j: int|
            0 <= j < ms.len() - 1 ==> ms.drop_first()[j] == #[trigger] ms[j + 1]);
        lemma_find_module_none(ms.drop_first(), name);
    }
}

proof fn lemma_find_method_at(ms: Seq<MethodV>, name: Seq<char>, k: int)
    requires
        0 <= k < ms.len(),
        ms[k].name == name,
        forall|j: int| 0 <= j < k ==> (#[trigger] ms[j].name) != name,
    ensures
        find_method(ms, name) == Some(ms[k]),
    decreases k,
{
    if k > 0 {
        assert(forall|j: int| 0 <= j < k - 1 ==> ms.drop_first()[j] == #[trigger] ms[j + 1]);
        assert(ms.drop_first()[k - 1] == ms[k]);
        lemma_find_method_at(ms.drop_first(), name, k - 1);
    }
}

proof fn lemma_find_method_none(ms: Seq<MethodV>, name: Seq<char>)
    requires
        forall|j: int| 0 <= j < ms.len() ==> (#[trigger] ms[j].name) != name,
    ensures
        find_method(ms, name) is None,
    decreases ms,
{
    if ms.len() > 0 {
        assert(forall|j: int|
            0 <= j < ms.len() - 1 ==> ms.drop_first()[j] == #[trigger] ms[j + 1]);
        lemma_find_method_none(ms.drop_first(), name);
    }
}

} // verus!
