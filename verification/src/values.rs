//! A small built-in type system: integer and boolean values, two named
//! integer transformations, and a registry over them.  It exercises the
//! capability contracts with verified implementations and serves embedders
//! that need nothing richer.

use vstd::prelude::*;

use crate::transform::AlgoModel;
use crate::transform::Algorithm;
use crate::transform::Invoke;
use crate::transform::NamedAlgorithms;
use crate::transform::TransformModel;
use crate::transform::Transformation;
use crate::transform::TypeContent;

verus! {

/// A built-in value.
#[derive(Clone, Copy, PartialEq, Eq, Structural, Debug)]
pub enum PrimVal {
    Integer(i64),
    Boolean(bool),
}

/// The type tag of a built-in value.
#[derive(Clone, Copy, PartialEq, Eq, Structural, Debug)]
pub enum PrimType {
    Integer,
    Boolean,
}

/// The error kind of the built-in computations.
#[derive(Clone, Copy, PartialEq, Eq, Structural, Debug)]
pub enum PrimErr {
    /// The mathematical result does not fit the value type.
    Overflow,
    /// The arguments do not match the declared signature.
    BadArguments,
}

/// The built-in callable handles.
#[derive(Clone, Copy, PartialEq, Eq, Structural, Debug)]
pub enum PrimFun {
    Add,
    Negate,
}

/// The single result a built-in callable yields on the given arguments.
pub open spec fn prim_result(f: PrimFun, args: Seq<PrimVal>) -> Result<PrimVal, PrimErr> {
    match f {
        PrimFun::Add => if args.len() == 2 {
            match (args[0], args[1]) {
                (PrimVal::Integer(a), PrimVal::Integer(b)) => if i64::MIN <= a + b <= i64::MAX {
                    Ok(PrimVal::Integer((a + b) as i64))
                } else {
                    Err(PrimErr::Overflow)
                },
                _ => Err(PrimErr::BadArguments),
            }
        } else {
            Err(PrimErr::BadArguments)
        },
        PrimFun::Negate => if args.len() == 1 {
            match args[0] {
                PrimVal::Integer(a) => if a == i64::MIN {
                    Err(PrimErr::Overflow)
                } else {
                    Ok(PrimVal::Integer((-a) as i64))
                },
                _ => Err(PrimErr::BadArguments),
            }
        } else {
            Err(PrimErr::BadArguments)
        },
    }
}

impl TypeContent for PrimVal {
    type Type = PrimType;

    type Err = PrimErr;

    type Fun = PrimFun;

    open spec fn spec_type(&self) -> PrimType {
        match self {
            PrimVal::Integer(_) => PrimType::Integer,
            PrimVal::Boolean(_) => PrimType::Boolean,
        }
    }

    fn get_type(&self) -> (t: PrimType) {
        match self {
            PrimVal::Integer(_) => PrimType::Integer,
            PrimVal::Boolean(_) => PrimType::Boolean,
        }
    }

    fn duplicate(&self) -> (r: Self) {
        *self
    }

    fn duplicate_err(e: &PrimErr) -> (r: PrimErr) {
        *e
    }

    fn same_type(a: &PrimType, b: &PrimType) -> (r: bool) {
        a == b
    }
}

impl Invoke<PrimVal, PrimErr> for PrimFun {
    open spec fn spec_invoke(&self, args: Seq<PrimVal>) -> Seq<Result<PrimVal, PrimErr>> {
        seq![prim_result(*self, args)]
    }

    fn invoke(&self, args: Vec<PrimVal>) -> (out: Vec<Result<PrimVal, PrimErr>>) {
        let r: Result<PrimVal, PrimErr> = match self {
            PrimFun::Add => {
                if args.len() != 2 {
                    Err(PrimErr::BadArguments)
                } else {
                    match (args[0], args[1]) {
                        (PrimVal::Integer(a), PrimVal::Integer(b)) => match a.checked_add(b) {
                            Some(s) => Ok(PrimVal::Integer(s)),
                            None => Err(PrimErr::Overflow),
                        },
                        _ => Err(PrimErr::BadArguments),
                    }
                }
            },
            PrimFun::Negate => {
                if args.len() != 1 {
                    Err(PrimErr::BadArguments)
                } else {
                    match args[0] {
                        PrimVal::Integer(a) => if a == i64::MIN {
                            Err(PrimErr::Overflow)
                        } else {
                            Ok(PrimVal::Integer(-a))
                        },
                        _ => Err(PrimErr::BadArguments),
                    }
                }
            },
        };
        let mut out: Vec<Result<PrimVal, PrimErr>> = Vec::new();
        out.push(r);
        proof {
            assert(out@ =~= seq![prim_result(*self, args@)]);
        }
        out
    }

    fn duplicate(&self) -> (r: Self) {
        *self
    }
}

impl NamedAlgorithms for PrimVal {
    open spec fn spec_transform(name: Seq<char>) -> Option<TransformModel<PrimVal>> {
        if name == "add"@ {
            Some(
                TransformModel {
                    name: "add"@,
                    input: seq![PrimType::Integer, PrimType::Integer],
                    output: seq![PrimType::Integer],
                    algorithm: AlgoModel::Function(PrimFun::Add),
                },
            )
        } else if name == "negate"@ {
            Some(
                TransformModel {
                    name: "negate"@,
                    input: seq![PrimType::Integer],
                    output: seq![PrimType::Integer],
                    algorithm: AlgoModel::Function(PrimFun::Negate),
                },
            )
        } else {
            None
        }
    }

    fn get_transform(name: &str) -> (r: Option<Transformation<PrimVal>>) {
        let key = String::from_str(name);
        if key == String::from_str("add") {
            let mut input: Vec<PrimType> = Vec::new();
            input.push(PrimType::Integer);
            input.push(PrimType::Integer);
            let mut output: Vec<PrimType> = Vec::new();
            output.push(PrimType::Integer);
            let t = Transformation {
                name: String::from_str("add"),
                input,
                output,
                algorithm: Algorithm::Function(PrimFun::Add),
            };
            proof {
                assert(t.input@ =~= seq![PrimType::Integer, PrimType::Integer]);
                assert(t.output@ =~= seq![PrimType::Integer]);
                lemma_prim_fun_wf(PrimFun::Add, t.output@);
            }
            Some(t)
        } else if key == String::from_str("negate") {
            let mut input: Vec<PrimType> = Vec::new();
            input.push(PrimType::Integer);
            let mut output: Vec<PrimType> = Vec::new();
            output.push(PrimType::Integer);
            let t = Transformation {
                name: String::from_str("negate"),
                input,
                output,
                algorithm: Algorithm::Function(PrimFun::Negate),
            };
            proof {
                assert(t.input@ =~= seq![PrimType::Integer]);
                assert(t.output@ =~= seq![PrimType::Integer]);
                lemma_prim_fun_wf(PrimFun::Negate, t.output@);
            }
            Some(t)
        } else {
            None
        }
    }
}

/// A built-in callable yields exactly one result, and only integers on
/// success: its declared single integer output is well-formed.
pub proof fn lemma_prim_fun_wf(f: PrimFun, output: Seq<PrimType>)
    requires
        output == seq![PrimType::Integer],
    ensures
        forall|args: Seq<PrimVal>| (#[trigger] f.spec_invoke(args)).len() == output.len(),
        forall|args: Seq<PrimVal>, i: int|
            #![trigger f.spec_invoke(args)[i]]
            0 <= i < output.len() ==> (f.spec_invoke(args)[i] matches Ok(v) ==> v.spec_type()
                == output[i]),
{
    assert forall|args: Seq<PrimVal>, i: int|
        0 <= i < output.len() implies (#[trigger] f.spec_invoke(args)[i] matches Ok(v)
        ==> v.spec_type() == output[i]) by {
        assert(f.spec_invoke(args) =~= seq![prim_result(f, args)]);
        match prim_result(f, args) {
            Ok(v) => {
                assert(v matches PrimVal::Integer(_));
            },
            Err(_) => {
            },
        }
    }
}

} // verus!
