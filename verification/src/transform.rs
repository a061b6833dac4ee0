//! Transformations: immutable descriptions of pure computations (a name,
//! ordered input and output types, and an algorithm), together with the
//! type-checked calling convention used to invoke them.

use vstd::prelude::*;

verus! {

/// The capability contract that every value type embedded in the graph must
/// satisfy.  A value reports its own type tag, can be duplicated, and names
/// the error kind its computations produce as well as the callable handle
/// type that executes them.
pub trait TypeContent: Sized {
    /// Equality-comparable descriptor of a value's type, used for all
    /// connection compatibility checks.
    type Type;
    /// The error kind produced when a computation over these values fails.
    type Err;
    /// The callable handle type executing this type system's computations.
    type Fun: Invoke<Self, Self::Err>;

    /// The type tag of this value, as seen by specifications.
    spec fn spec_type(&self) -> Self::Type;

    /// Report the type tag of this value.
    fn get_type(&self) -> (t: Self::Type)
        ensures
            t == self.spec_type(),
    ;

    /// Produce a value equal to this one.
    fn duplicate(&self) -> (r: Self)
        ensures
            r == *self,
    ;

    /// Produce an error equal to the given one.
    fn duplicate_err(e: &Self::Err) -> (r: Self::Err)
        ensures
            r == *e,
    ;

    /// Decide equality of two type tags.
    fn same_type(a: &Self::Type, b: &Self::Type) -> (r: bool)
        ensures
            r == (a == b),
    ;
}

/// The callable capability: an opaque handle that, invoked with ordered
/// typed values, produces ordered typed results.  An invocation is a pure,
/// deterministic function of the handle and its arguments, described by
/// `spec_invoke`; how many results it yields and of what types is pinned
/// down by the well-formedness of the transformation carrying the handle.
pub trait Invoke<T, E>: Sized {
    /// The results of invoking this callable on the given ordered arguments.
    spec fn spec_invoke(&self, args: Seq<T>) -> Seq<Result<T, E>>;

    /// Execute the callable on the given ordered arguments.
    fn invoke(&self, args: Vec<T>) -> (out: Vec<Result<T, E>>)
        ensures
            out@ == self.spec_invoke(args@),
    ;

    /// Produce a callable equal to this one.
    fn duplicate(&self) -> (r: Self)
        ensures
            r == *self,
    ;
}

/// How a transformation computes: either a callable handle, or a
/// precomputed list of constant values emitted as-is.
pub enum Algorithm<T: TypeContent> {
    Function(T::Fun),
    Constant(Vec<T>),
}

/// The ghost model of an algorithm.
pub enum AlgoModel<T: TypeContent> {
    Function(T::Fun),
    Constant(Seq<T>),
}

impl<T: TypeContent> Algorithm<T> {
    /// The results this algorithm yields when run on the given ordered
    /// arguments: what the callable computes, or each constant wrapped as a
    /// success.
    pub open spec fn results(&self, args: Seq<T>) -> Seq<Result<T, T::Err>> {
        match self {
            Algorithm::Function(f) => f.spec_invoke(args),
            Algorithm::Constant(c) => c@.map_values(|t: T| Ok::<T, T::Err>(t)),
        }
    }

    /// Produce an algorithm equal (in model) to this one.
    pub fn duplicate(&self) -> (r: Self)
        ensures
            r@ == self@,
    {
        match self {
            Algorithm::Function(f) => Algorithm::Function(f.duplicate()),
            Algorithm::Constant(c) => Algorithm::Constant(duplicate_values(c)),
        }
    }
}

impl<T: TypeContent> View for Algorithm<T> {
    type V = AlgoModel<T>;

    open spec fn view(&self) -> AlgoModel<T> {
        match self {
            Algorithm::Function(f) => AlgoModel::Function(*f),
            Algorithm::Constant(c) => AlgoModel::Constant(c@),
        }
    }
}

/// Produce a vector whose elements equal those of the given one, in order.
pub fn duplicate_values<T: TypeContent>(v: &Vec<T>) -> (r: Vec<T>)
    ensures
        r@ == v@,
{
    let mut r: Vec<T> = Vec::new();
    let mut i: usize = 0;
    while i < v.len()
        invariant
            i <= v@.len(),
            r@ == v@.subrange(0, i as int),
        decreases v@.len() - i,
    {
        r.push(v[i].duplicate());
        i = i + 1;
    }
    assert(r@ == v@);
    r
}

/// Well-formedness of an algorithm against declared input and output type
/// lists: a constant emitter takes no inputs and carries one constant per
/// declared output, of the output's declared type; a callable yields, on
/// any arguments, one result per declared output, each success of the
/// output's declared type.
pub open spec fn algorithm_wf<T: TypeContent>(
    a: &Algorithm<T>,
    input: Seq<T::Type>,
    output: Seq<T::Type>,
) -> bool {
    match a {
        Algorithm::Constant(c) => input.len() == 0 && c@.len() == output.len() && forall|i: int|
            0 <= i < c@.len() ==> (#[trigger] c@[i]).spec_type() == output[i],
        Algorithm::Function(f) => (forall|args: Seq<T>|
            (#[trigger] f.spec_invoke(args)).len() == output.len()) && forall|args: Seq<T>, i: int|
            #![trigger f.spec_invoke(args)[i]]
            0 <= i < output.len() ==> (f.spec_invoke(args)[i] matches Ok(v) ==> v.spec_type()
                == output[i]),
    }
}

/// The ghost model of a transformation: its name, input and output type
/// lists, and algorithm.
pub struct TransformModel<T: TypeContent> {
    pub name: Seq<char>,
    pub input: Seq<T::Type>,
    pub output: Seq<T::Type>,
    pub algorithm: AlgoModel<T>,
}

/// An immutable description of a pure computation: a name, an ordered list
/// of input types, an ordered list of output types, and an algorithm.
pub struct Transformation<T: TypeContent> {
    pub name: String,
    pub input: Vec<T::Type>,
    pub output: Vec<T::Type>,
    pub algorithm: Algorithm<T>,
}

impl<T: TypeContent> View for Transformation<T> {
    type V = TransformModel<T>;

    open spec fn view(&self) -> TransformModel<T> {
        TransformModel {
            name: self.name@,
            input: self.input@,
            output: self.output@,
            algorithm: self.algorithm@,
        }
    }
}

impl<T: TypeContent> Transformation<T> {
    /// Well-formedness: the algorithm agrees with the declared arities and
    /// types.
    pub open spec fn wf(&self) -> bool {
        algorithm_wf(&self.algorithm, self.input@, self.output@)
    }

    /// Create a new transformation always returning a single constant.
    /// Its name is the reserved sentinel for constants.
    pub fn new_constant(t: T) -> (r: Self)
        ensures
            r.wf(),
            r.name@ == "const"@,
            r.input@.len() == 0,
            r.output@ == seq![t.spec_type()],
            r.algorithm@ == AlgoModel::Constant(seq![t]),
    {
        let tag = t.get_type();
        let mut output: Vec<T::Type> = Vec::new();
        output.push(tag);
        let mut constants: Vec<T> = Vec::new();
        constants.push(t);
        proof {
            assert(output@ =~= seq![t.spec_type()]);
            assert(constants@ =~= seq![t]);
        }
        Transformation {
            name: String::from_str("const"),
            input: Vec::new(),
            output,
            algorithm: Algorithm::Constant(constants),
        }
    }

    /// Set this transformation to the given constant value, discarding its
    /// prior name, arity and algorithm.
    pub fn set_constant(&mut self, t: T)
        ensures
            final (self).wf(),
            final (self).name@ == "const"@,
            final (self).input@.len() == 0,
            final (self).output@ == seq![t.spec_type()],
            final (self).algorithm@ == AlgoModel::Constant(seq![t]),
    {
        let tag = t.get_type();
        let mut output: Vec<T::Type> = Vec::new();
        output.push(tag);
        let mut constants: Vec<T> = Vec::new();
        constants.push(t);
        proof {
            assert(output@ =~= seq![t.spec_type()]);
            assert(constants@ =~= seq![t]);
        }
        self.name = String::from_str("const");
        self.input = Vec::new();
        self.output = output;
        self.algorithm = Algorithm::Constant(constants);
    }

    /// Check that the given output index exists for this transformation.
    pub fn output_exists(&self, output_i: usize) -> (r: bool)
        ensures
            r == (output_i < self.output@.len()),
    {
        output_i < self.output.len()
    }

    /// Check that the given input index exists for this transformation.
    pub fn input_exists(&self, input_i: usize) -> (r: bool)
        ensures
            r == (input_i < self.input@.len()),
    {
        input_i < self.input.len()
    }

    /// Return the nth output type.  The index must be in bounds.
    pub fn nth_output_type(&self, output_i: usize) -> (r: &T::Type)
        requires
            output_i < self.output@.len(),
        ensures
            *r == self.output@[output_i as int],
    {
        &self.output[output_i]
    }

    /// Return the nth input type.  The index must be in bounds.
    pub fn nth_input_type(&self, input_i: usize) -> (r: &T::Type)
        requires
            input_i < self.input@.len(),
        ensures
            *r == self.input@[input_i as int],
    {
        &self.input[input_i]
    }

    /// Open a type-checked invocation session over this transformation's
    /// declared input types and its algorithm.
    pub fn start(&self) -> (r: TransformationCaller<T>)
        requires
            self.wf(),
        ensures
            r.expected@ == self.input@,
            r.outputs@ == self.output@,
            r.algorithm@ == self.algorithm@,
            r.input@ == Seq::<T>::empty(),
            r.wf(),
    {
        TransformationCaller {
            expected: Ghost(self.input@),
            outputs: Ghost(self.output@),
            algorithm: self.algorithm.duplicate(),
            input: Vec::new(),
        }
    }
}

/// The registry capability consumed by the graph and its serialization
/// adapter: a name-keyed lookup of transformations, supplied by the
/// embedding application.
pub trait NamedAlgorithms: TypeContent {
    /// The registry model: the transformation registered under a name, if
    /// any.
    spec fn spec_transform(name: Seq<char>) -> Option<TransformModel<Self>>;

    /// Look up the transformation registered under the given name.  A
    /// registered transformation is well-formed and bears the name it is
    /// registered under.
    fn get_transform(name: &str) -> (r: Option<Transformation<Self>>)
        ensures
            (r is Some) == (Self::spec_transform(name@) is Some),
            r matches Some(t) ==> Self::spec_transform(name@) matches Some(m) && t@ == m && t.wf()
                && t.name@ == name@,
    ;

    /// Look up only the algorithm registered under the given name.
    fn get_algorithm(name: &str) -> (r: Option<Algorithm<Self>>)
        ensures
            (r is Some) == (Self::spec_transform(name@) is Some),
            r matches Some(a) ==> Self::spec_transform(name@) matches Some(m) && a@ == m.algorithm,
    {
        match Self::get_transform(name) {
            Some(t) => Some(t.algorithm),
            None => None,
        }
    }
}

/// A type-checked, single-use argument accumulator bound to one
/// transformation: arguments are fed in declared order with matching type
/// tags, then the algorithm is executed once fully fed.
pub struct TransformationCaller<T: TypeContent> {
    /// The declared input types of the transformation this session is over.
    pub expected: Ghost<Seq<T::Type>>,
    /// The declared output types of the transformation this session is over.
    pub outputs: Ghost<Seq<T::Type>>,
    /// The algorithm to execute once fully fed.
    pub algorithm: Algorithm<T>,
    /// The arguments accumulated so far, in declared order.
    pub input: Vec<T>,
}

impl<T: TypeContent> TransformationCaller<T> {
    /// Well-formedness, inherited from the transformation the session was
    /// started on.
    pub open spec fn wf(&self) -> bool {
        algorithm_wf(&self.algorithm, self.expected@, self.outputs@)
    }

    /// Feed the next argument to the transformation.  Feeding a value of
    /// the wrong type, or more values than declared, is a precondition
    /// violation.
    pub fn feed(&mut self, input: T)
        requires
            old(self).input@.len() < old(self).expected@.len(),
            input.spec_type() == old(self).expected@[old(self).input@.len() as int],
        ensures
            final (self).input@ == old(self).input@.push(input),
            final (self).expected == old(self).expected,
            final (self).outputs == old(self).outputs,
            final (self).algorithm == old(self).algorithm,
    {
        self.input.push(input);
    }

    /// Feed the next argument to the transformation, given by reference.
    /// Feeding a value of the wrong type, or more values than declared, is
    /// a precondition violation.
    pub fn feed_ref(&mut self, input: &T)
        requires
            old(self).input@.len() < old(self).expected@.len(),
            input.spec_type() == old(self).expected@[old(self).input@.len() as int],
        ensures
            final (self).input@ == old(self).input@.push(*input),
            final (self).expected == old(self).expected,
            final (self).outputs == old(self).outputs,
            final (self).algorithm == old(self).algorithm,
    {
        self.input.push(input.duplicate());
    }

    /// Compute the transformation with the accumulated arguments, yielding
    /// exactly one result per declared output, in output order.  Calling
    /// before all declared inputs are fed is a precondition violation.
    pub fn call(self) -> (r: TransformationResult<T>)
        requires
            self.wf(),
            self.input@.len() == self.expected@.len(),
        ensures
            r.output@ == self.algorithm.results(self.input@),
            r.output@.len() == self.outputs@.len(),
    {
        let TransformationCaller { expected: _, outputs: _, algorithm, input } = self;
        match algorithm {
            Algorithm::Function(f) => {
                let out = f.invoke(input);
                TransformationResult { output: out }
            },
            Algorithm::Constant(c) => {
                let mut out: Vec<Result<T, T::Err>> = Vec::new();
                let mut i: usize = 0;
                while i < c.len()
                    invariant
                        i <= c@.len(),
                        out@ == c@.subrange(0, i as int).map_values(
                            |t: T| Ok::<T, T::Err>(t),
                        ),
                    decreases c@.len() - i,
                {
                    proof {
                        assert(c@.subrange(0, i + 1 as int).map_values(
                            |t: T| Ok::<T, T::Err>(t),
                        ) =~= c@.subrange(0, i as int).map_values(|t: T| Ok::<T, T::Err>(t)).push(
                            Ok(c@[i as int]),
                        ));
                    }
                    out.push(Ok(c[i].duplicate()));
                    i = i + 1;
                }
                proof {
                    assert(c@.subrange(0, c@.len() as int) =~= c@);
                }
                TransformationResult { output: out }
            },
        }
    }
}

/// The finite sequence of results produced by one invocation, one per
/// declared output, in output order.
pub struct TransformationResult<T: TypeContent> {
    /// The results not yet taken, in output order.
    pub output: Vec<Result<T, T::Err>>,
}

impl<T: TypeContent> TransformationResult<T> {
    /// How many results remain.
    pub fn len(&self) -> (r: usize)
        ensures
            r == self.output@.len(),
    {
        self.output.len()
    }

    /// Take the next result, in output order, if any remains.
    pub fn next(&mut self) -> (r: Option<Result<T, T::Err>>)
        ensures
            old(self).output@.len() == 0 ==> r is None && final (self).output@ == old(self).output@,
            old(self).output@.len() > 0 ==> r == Some(old(self).output@[0]) && final (self).output@
                == old(self).output@.subrange(1, old(self).output@.len() as int),
    {
        if self.output.len() == 0 {
            None
        } else {
            Some(self.output.remove(0))
        }
    }
}

} // verus!
