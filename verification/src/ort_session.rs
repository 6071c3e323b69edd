//! Loading a detection model: whether the runtime can be used, what it is asked
//! for, and what is read off the model.
use crate::labels::{label_list, parse_names_dict_string, texts};
use crate::text::{chars_of, decimal, find_in, number, push_decimal, read_number, split};
use vstd::prelude::*;
use vstd::string::StringExecFns;

verus! {

/// Why a model cannot be loaded.
#[derive(Clone, Debug)]
pub enum SessionError {
    /// The runtime cannot be used.
    RuntimeUnavailable(String),
    /// The runtime refused.
    Ort(String),
}

/// What came of starting the runtime.
#[derive(Clone, Debug)]
pub enum RuntimeStart {
    Ready,
    Failed(String),
    Panicked,
}

/// Whether `r` is the verdict on a runtime, given whether its library can be
/// loaded and what came of starting it.
pub open spec fn verdict_on(
    probe: Result<(), String>,
    start: RuntimeStart,
    r: Result<(), String>,
) -> bool {
    match (probe, start) {
        (Err(why), _) => r matches Err(e) && e@ == why@,
        (Ok(_), RuntimeStart::Ready) => r is Ok,
        (Ok(_), RuntimeStart::Failed(why)) => r matches Err(e) && e@
            == "ONNX Runtime init failed: "@ + why@,
        (Ok(_), RuntimeStart::Panicked) => r matches Err(e) && e@
            == "ONNX Runtime initialization panicked"@,
    }
}

/// Whether the runtime can be used, and if not, why. `probe` says whether its
/// library can be loaded, and if not, why; `start` is what came of starting it,
/// which is only tried once the library can be loaded.
pub fn ort_runtime_available(probe: Result<(), String>, start: RuntimeStart) -> (r: Result<
    (),
    String,
>)
    ensures
        verdict_on(probe, start, r),
{
    match probe {
        Err(why) => Err(why),
        Ok(_) => match start {
            RuntimeStart::Ready => Ok(()),
            RuntimeStart::Failed(why) => {
                let mut e: String = String::from_str("ONNX Runtime init failed: ");
                e.append(why.as_str());
                Err(e)
            },
            RuntimeStart::Panicked => Err(
                String::from_str("ONNX Runtime initialization panicked"),
            ),
        },
    }
}

/// The verdict on the runtime, which is reached once and then stands: a runtime
/// that could not be started must not be started again.
#[derive(Debug)]
pub struct RuntimeGate {
    verdict: Option<Result<(), String>>,
}

impl RuntimeGate {
    /// The verdict, once there is one.
    pub closed spec fn settled(&self) -> Option<Result<(), String>> {
        self.verdict
    }

    /// A gate without a verdict.
    pub fn new() -> (r: Self)
        ensures
            r.settled() is None,
    {
        RuntimeGate { verdict: None }
    }

    /// The verdict, once there is one.
    pub fn verdict(&self) -> (r: Option<&Result<(), String>>)
        ensures
            match self.settled() {
                Some(v) => r matches Some(x) && *x == v,
                None => r is None,
            },
    {
        match &self.verdict {
            Some(v) => Some(v),
            None => None,
        }
    }

    /// Reaches a verdict, unless there is one.
    pub fn settle(&mut self, probe: Result<(), String>, start: RuntimeStart)
        ensures
            old(self).settled() is Some ==> final(self).settled() == old(self).settled(),
            old(self).settled() is None ==> (final(self).settled() matches Some(v) && verdict_on(
                probe,
                start,
                v,
            )),
    {
        if self.verdict.is_none() {
            self.verdict = Some(ort_runtime_available(probe, start));
        }
    }
}

/// The name of the runtime's library: the one asked for, or the usual one where
/// none is or an empty one is.
pub fn dylib_name<'a>(asked: Option<&'a str>, usual: &'a str) -> (r: &'a str)
    ensures
        match asked {
            Some(s) => r@ == if s@.len() == 0 {
                usual@
            } else {
                s@
            },
            None => r@ == usual@,
        },
{
    match asked {
        Some(s) => if s.is_empty() {
            usual
        } else {
            s
        },
        None => usual,
    }
}

/// Where the runtime's library is looked for.
#[derive(Clone, Copy, Debug, PartialEq, Eq, Structural)]
pub enum DylibPlace {
    /// Where its name says, or where the system looks.
    AsNamed,
    /// Next to the program.
    BesideProgram,
}

/// Where the runtime's library is looked for: next to the program if it is
/// there and the name does not say where.
pub fn dylib_place(absolute: bool, beside_program: bool) -> (r: DylibPlace)
    ensures
        r == (if !absolute && beside_program {
            DylibPlace::BesideProgram
        } else {
            DylibPlace::AsNamed
        }),
{
    if !absolute && beside_program {
        DylibPlace::BesideProgram
    } else {
        DylibPlace::AsNamed
    }
}

/// The second number of a version, zero where there is none.
pub open spec fn minor_of(version: Seq<char>) -> nat {
    let parts = split(version, '.');
    if parts.len() < 2 {
        0
    } else {
        match number(parts[1], u32::MAX as nat) {
            Some(n) => n,
            None => 0,
        }
    }
}

/// The second number of a version, zero where there is none.
pub fn minor_version(version: &str) -> (r: u32)
    ensures
        r == minor_of(version@),
{
    let v: Vec<char> = chars_of(version);
    let n: usize = v.len();
    assert(v@.subrange(0, n as int) =~= v@);
    let k: usize = find_in(&v, 0, n, '.');
    if k >= n {
        return 0;
    }
    let e: usize = find_in(&v, k + 1, n, '.');
    proof {
        reveal_with_fuel(split, 3);
        let rest = v@.subrange(k + 1, n as int);
        assert(v@.skip(k + 1) =~= rest);
        let parts = split(v@, '.');
        let after = split(rest, '.');
        assert(parts == seq![v@.take(k as int)] + after);
        assert(parts[1] == after[0]);
        if e >= n {
            assert(after[0] == rest);
            assert(rest =~= v@.subrange(k + 1, e as int));
        } else {
            assert(after[0] == rest.take(e - k - 1));
            assert(rest.take(e - k - 1) =~= v@.subrange(k + 1, e as int));
        }
    }
    match read_number(&v, k + 1, e, u32::MAX as u64) {
        Some(m) => m as u32,
        None => 0,
    }
}

/// What is said of a library that is too old.
pub open spec fn too_old(path: Seq<char>, version: Seq<char>, needed: u32) -> Seq<char> {
    "ONNX Runtime at `"@ + path + "` is version "@ + version + "; ort needs >= 1."@ + decimal(
        needed as nat,
    )
}

/// Whether a library of the given version is new enough, and if not, what is
/// said of it.
pub fn probe_ort_dylib(path: &str, version: &str, needed: u32) -> (r: Result<(), String>)
    ensures
        if minor_of(version@) < needed {
            r matches Err(e) && e@ == too_old(path@, version@, needed)
        } else {
            r is Ok
        },
{
    if minor_version(version) < needed {
        let mut e: String = String::from_str("ONNX Runtime at `");
        e.append(path);
        e.append("` is version ");
        e.append(version);
        e.append("; ort needs >= 1.");
        push_decimal(&mut e, needed as u64);
        Err(e)
    } else {
        Ok(())
    }
}

/// What a model's input or output is.
#[derive(Clone, Debug)]
pub enum ValueShape {
    /// A tensor; what is not known of its shape is not positive.
    Tensor(Vec<i64>),
    Other,
}

/// What hardware a model may run on.
#[derive(Clone, Copy, Debug, PartialEq, Eq, Structural)]
pub enum Provider {
    TensorRt,
    Cuda,
    CoreMl,
    DirectMl,
}

/// What this build can run on.
#[derive(Clone, Copy, Debug, PartialEq, Eq, Structural)]
pub struct Providers {
    pub tensorrt: bool,
    pub cuda: bool,
    pub coreml: bool,
    pub windows: bool,
}

impl Providers {
    /// Whether this build can run on the given hardware.
    pub open spec fn has(self, p: Provider) -> bool {
        match p {
            Provider::TensorRt => self.tensorrt,
            Provider::Cuda => self.cuda,
            Provider::CoreMl => self.coreml,
            Provider::DirectMl => self.windows,
        }
    }

    /// The hardware that is tried, in order; what fails is passed over.
    pub open spec fn tried(self) -> Seq<Provider> {
        seq![Provider::TensorRt, Provider::Cuda, Provider::CoreMl, Provider::DirectMl].filter(
            |p: Provider| self.has(p),
        )
    }

    /// The hardware that is tried, in order.
    pub fn in_order(&self) -> (r: Vec<Provider>)
        ensures
            r@ == self.tried(),
    {
        let mut v: Vec<Provider> = Vec::new();
        if self.tensorrt {
            v.push(Provider::TensorRt);
        }
        if self.cuda {
            v.push(Provider::Cuda);
        }
        if self.coreml {
            v.push(Provider::CoreMl);
        }
        if self.windows {
            v.push(Provider::DirectMl);
        }
        proof {
            let all = seq![
                Provider::TensorRt,
                Provider::Cuda,
                Provider::CoreMl,
                Provider::DirectMl,
            ];
            let has = |p: Provider| self.has(p);
            reveal_with_fuel(Seq::filter, 5);
            let a3 = all.drop_last();
            let a2 = a3.drop_last();
            let a1 = a2.drop_last();
            let a0 = a1.drop_last();
            assert(a0.len() == 0);
            assert(v@ =~= all.filter(has));
        }
        v
    }
}

/// What is read off a model.
pub struct ModelFacts {
    pub inputs: Vec<ValueShape>,
    /// The class names in its metadata.
    pub names: Option<String>,
}

/// A loaded model's input size and class labels.
pub struct LoadedModel {
    pub input_size: u32,
    pub labels: Vec<String>,
}

/// The input size where the model does not tell.
pub const FALLBACK_SIZE: u32 = 1280;

/// The height of a model's input.
pub open spec fn input_height(input: ValueShape) -> u32 {
    match input {
        ValueShape::Tensor(shape) => if shape@[2] > 0 {
            shape@[2] as u32
        } else {
            FALLBACK_SIZE
        },
        ValueShape::Other => FALLBACK_SIZE,
    }
}

/// The labels given, or else those in the model's metadata, or else a ball.
pub open spec fn model_labels(given: Seq<Seq<char>>, names: Option<Seq<char>>) -> Seq<Seq<char>> {
    if given.len() > 0 {
        given
    } else {
        match names {
            Some(n) => match label_list(n) {
                Some(list) => list,
                None => seq!["ball"@],
            },
            None => seq!["ball"@],
        }
    }
}

/// The metadata's class names.
pub open spec fn names_of(facts: ModelFacts) -> Option<Seq<char>> {
    match facts.names {
        Some(s) => Some(s@),
        None => None,
    }
}

/// Its first input is one that a size can be read off.
pub open spec fn readable(facts: ModelFacts) -> bool {
    &&& facts.inputs@.len() >= 1
    &&& facts.inputs@[0] matches ValueShape::Tensor(shape) ==> shape@.len() >= 3
}

/// A model's input size and labels. `available` says whether the runtime can be
/// used, and `loaded` what it read off the model, or why it refused.
pub fn create_ort_session(
    available: Result<(), String>,
    loaded: Result<ModelFacts, String>,
    fallback_labels: Vec<String>,
) -> (r: Result<LoadedModel, SessionError>)
    requires
        loaded matches Ok(facts) ==> readable(facts),
    ensures
        match (available, loaded) {
            (Err(why), _) => r matches Err(SessionError::RuntimeUnavailable(e)) && e@ == why@,
            (Ok(_), Err(why)) => r matches Err(SessionError::Ort(e)) && e@ == why@,
            (Ok(_), Ok(facts)) => {
                &&& r matches Ok(m)
                &&& m.input_size == input_height(facts.inputs@[0])
                &&& texts(m.labels@) == model_labels(texts(fallback_labels@), names_of(facts))
            },
        },
{
    if let Err(why) = available {
        return Err(SessionError::RuntimeUnavailable(why));
    }
    let facts: ModelFacts = match loaded {
        Ok(f) => f,
        Err(why) => {
            return Err(SessionError::Ort(why));
        },
    };
    let input_size: u32 = match &facts.inputs[0] {
        ValueShape::Tensor(shape) => {
            let h: i64 = shape[2];
            if h > 0 {
                #[verifier::truncate]
                (h as u32)
            } else {
                FALLBACK_SIZE
            }
        },
        ValueShape::Other => FALLBACK_SIZE,
    };
    let labels: Vec<String> = if fallback_labels.len() == 0 {
        let parsed: Option<Vec<String>> = match &facts.names {
            Some(s) => parse_names_dict_string(s.as_str()),
            None => None,
        };
        match parsed {
            Some(v) => v,
            None => {
                let mut one: Vec<String> = Vec::new();
                one.push(String::from_str("ball"));
                assert(texts(one@) =~= seq!["ball"@]);
                one
            },
        }
    } else {
        fallback_labels
    };
    Ok(LoadedModel { input_size, labels })
}

/// Labels that are given always stand.
pub proof fn law_given_model_labels_stand(given: Seq<Seq<char>>, names: Option<Seq<char>>)
    requires
        given.len() > 0,
    ensures
        model_labels(given, names) == given,
{
}

/// A model always has a label.
pub proof fn law_model_has_a_label(given: Seq<Seq<char>>, names: Option<Seq<char>>)
    ensures
        model_labels(given, names).len() > 0,
{
}

/// The last entry of a tensor's shape.
pub open spec fn last_dim(s: ValueShape) -> Option<i64> {
    match s {
        ValueShape::Tensor(shape) => if shape@.len() == 0 {
            None
        } else {
            Some(shape@.last())
        },
        ValueShape::Other => None,
    }
}

/// Two outputs, boxes of four and scores of any number but six.
pub open spec fn boxes_and_scores(outputs: Seq<ValueShape>) -> bool {
    &&& outputs.len() == 2
    &&& last_dim(outputs[0]) == Some(4i64)
    &&& last_dim(outputs[1]) matches Some(d) && d != 6
}

fn find_last_dim(s: &ValueShape) -> (r: Option<i64>)
    ensures
        r == last_dim(*s),
{
    match s {
        ValueShape::Tensor(shape) => if shape.len() == 0 {
            None
        } else {
            Some(shape[shape.len() - 1])
        },
        ValueShape::Other => None,
    }
}

/// Whether a model's outputs are those of a detection transformer: two of
/// them, boxes of four and scores of any number but six.
pub fn is_rf_detr_output_shape(outputs: &Vec<ValueShape>) -> (r: bool)
    ensures
        r == boxes_and_scores(outputs@),
{
    if outputs.len() != 2 {
        return false;
    }
    match (find_last_dim(&outputs[0]), find_last_dim(&outputs[1])) {
        (Some(d0), Some(d1)) => d0 == 4 && d1 != 6,
        _ => false,
    }
}

} // verus!
