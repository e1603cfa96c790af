//! The JavaScript engine that runs rules, as far as the evaluation of rules calls it.
//!
//! What a script does depends on the scripts that ran before it, and on chance and time where it
//! asks for them, so nothing is claimed of the values that come back. What is claimed is what was
//! asked: every answer comes in a report that says which call it answers. A call does not return
//! while the script that it runs goes on.

use crate::rules::JsResult;
use rquickjs::context::EvalOptions;
use rquickjs::{Context, Error, Function, Object, Persistent, Runtime, Value};
use vstd::prelude::*;

verus! {

/// An engine with its memory. Opaque.
#[verifier::external_type_specification]
#[verifier::external_body]
pub struct ExRuntime(rquickjs::Runtime);

/// A global environment of an engine. Opaque.
#[verifier::external_type_specification]
#[verifier::external_body]
pub struct ExContext(rquickjs::Context);

/// What may go wrong in an engine. Opaque.
#[verifier::external_type_specification]
#[verifier::external_body]
pub struct ExError(rquickjs::Error);

/// A value of an engine. Opaque.
#[verifier::external_type_specification]
#[verifier::external_body]
pub struct ExJsValue<'js>(rquickjs::Value<'js>);

/// A function of an engine. Opaque.
#[verifier::external_type_specification]
#[verifier::external_body]
pub struct ExFunction<'js>(rquickjs::Function<'js>);

/// A value that the engine keeps. Opaque.
#[verifier::external_type_specification]
#[verifier::external_body]
#[verifier::reject_recursive_types(T)]
pub struct ExPersistent<T>(rquickjs::Persistent<T>);

/// What the engine was asked, with what came back. Only the functions of this module make one,
/// each for the call that it makes.
pub struct Report<Q, A> {
    asked: Q,
    answer: A,
}

impl<Q, A> Report<Q, A> {
    /// What was asked.
    pub closed spec fn asked(&self) -> Q {
        self.asked
    }

    /// What came back.
    pub closed spec fn answer(&self) -> A {
        self.answer
    }

    /// Gives what came back.
    pub fn reply(&self) -> (r: &A)
        ensures
            *r == self.answer(),
    {
        &self.answer
    }

    /// Gives away what came back.
    pub fn into_reply(self) -> (r: A)
        ensures
            r == self.answer(),
    {
        self.answer
    }

    /// Gives what was asked.
    pub fn request(&self) -> (r: &Q)
        ensures
            *r == self.asked(),
    {
        &self.asked
    }
}

/// A value that the engine keeps.
pub type Kept = Persistent<Value<'static>>;

/// A function that the engine keeps.
pub type KeptFunction = Persistent<Function<'static>>;

/// A script to be run in the global environment, in strict mode or not, and with or without a
/// barrier for backtraces.
pub struct ScriptRun {
    pub script: String,
    pub strict: bool,
    pub barrier: bool,
}

/// A member of a value.
pub struct MemberOf {
    pub value: Kept,
    pub name: String,
}

/// An item of an array.
pub struct ItemOf {
    pub array: Kept,
    pub index: usize,
}

/// A call of a function with two arguments.
pub struct CallOf {
    pub function: KeptFunction,
    pub first: Kept,
    pub second: Kept,
}

/// Calls `Runtime::new`, which makes an engine. It may fail; nothing else is claimed.
#[verifier::external_body]
pub(crate) fn new_runtime() -> (r: Report<(), Result<Runtime, Error>>) {
    Report { asked: (), answer: Runtime::new() }
}

/// Calls `Context::full`, which makes a global environment with all that is built in. The report
/// is on that engine. It may fail; nothing else is claimed.
#[verifier::external_body]
pub(crate) fn full_context(asked: Runtime) -> (r: Report<Runtime, Result<Context, Error>>)
    ensures
        r.asked() == asked,
{
    let answer = Context::full(&asked);
    Report { asked, answer }
}

/// Writes out what went wrong, by the `Display` of `rquickjs::Error`. The report is on that error;
/// nothing is claimed of the words.
#[verifier::external_body]
pub(crate) fn error_text<'a>(asked: &'a Error) -> (r: Report<&'a Error, String>)
    ensures
        *r.asked() == *asked,
{
    Report { asked, answer: asked.to_string() }
}

/// Calls `Persistent::clone` on a value: the copy keeps the same value of the engine.
#[verifier::external_body]
pub(crate) fn same_value(value: &Kept) -> (r: Kept)
    ensures
        r == *value,
{
    value.clone()
}

/// Calls `Persistent::clone` on a function: the copy keeps the same function of the engine.
#[verifier::external_body]
pub(crate) fn same_function(function: &KeptFunction) -> (r: KeptFunction)
    ensures
        r == *function,
{
    function.clone()
}

/// Calls `Ctx::eval_with_options` for a script. The report is on that script; nothing is claimed
/// of the value that it gives.
#[verifier::external_body]
pub(crate) fn eval_script(context: &Context, asked: ScriptRun) -> (r: Report<ScriptRun, Result<Kept, Error>>)
    ensures
        r.asked() == asked,
{
    let mut options = EvalOptions::default();
    options.strict = asked.strict;
    options.backtrace_barrier = asked.barrier;
    let answer = context.with(|js| js.eval_with_options(asked.script.as_str(), options));
    Report { asked, answer }
}

/// Reads the property `length` of an array; `None` where the value is no array. The report is on
/// that value; nothing is claimed of the number.
#[verifier::external_body]
pub(crate) fn array_length(context: &Context, asked: Kept) -> (r: Report<Kept, Result<Option<usize>, Error>>)
    ensures
        r.asked() == asked,
{
    let answer = context.with(|js| match asked.clone().restore(&js)?.as_array() {
        Some(a) => a.as_object().get("length").map(Some),
        None => Ok(None),
    });
    Report { asked, answer }
}

/// Calls `Array::get` for an item. The report is on that item; nothing is claimed of its value.
#[verifier::external_body]
pub(crate) fn array_item(context: &Context, asked: ItemOf) -> (r: Report<ItemOf, Result<Kept, Error>>)
    ensures
        r.asked() == asked,
{
    let answer = context.with(|js| rquickjs::Array::from_value(asked.array.clone().restore(&js)?)?.get(asked.index));
    Report { asked, answer }
}

/// Calls `Value::as_object`, which tells objects from other values. The report is on that value;
/// nothing is claimed of which it is.
#[verifier::external_body]
pub(crate) fn is_object(context: &Context, asked: Kept) -> (r: Report<Kept, Result<bool, Error>>)
    ensures
        r.asked() == asked,
{
    let answer = context.with(|js| Ok(asked.clone().restore(&js)?.as_object().is_some()));
    Report { asked, answer }
}

/// Calls `Object::get` for a text. The report is on that member. It fails where the member is no
/// text; nothing else is claimed.
#[verifier::external_body]
pub(crate) fn text_member(context: &Context, asked: MemberOf) -> (r: Report<MemberOf, Result<String, Error>>)
    ensures
        r.asked() == asked,
{
    let answer = context.with(|js| Object::from_value(asked.value.clone().restore(&js)?)?.get(asked.name.as_str()));
    Report { asked, answer }
}

/// Calls `Object::get` for a function. The report is on that member. It fails where the member is
/// no function; nothing else is claimed.
#[verifier::external_body]
pub(crate) fn function_member(context: &Context, asked: MemberOf) -> (r: Report<MemberOf, Result<KeptFunction, Error>>)
    ensures
        r.asked() == asked,
{
    let answer = context.with(|js| Object::from_value(asked.value.clone().restore(&js)?)?.get(asked.name.as_str()));
    Report { asked, answer }
}

/// Calls `Object::get` on the global object. The report is on the member of that name; nothing is
/// claimed of its value.
#[verifier::external_body]
pub(crate) fn global_member(context: &Context, asked: String) -> (r: Report<String, Result<Kept, Error>>)
    ensures
        r.asked() == asked,
{
    let answer = context.with(|js| js.globals().get(asked.as_str()));
    Report { asked, answer }
}

/// Calls `Function::call` with two arguments. The report is on that call. It fails where the
/// function throws; nothing is claimed of the value.
#[verifier::external_body]
pub(crate) fn call_function(context: &Context, asked: CallOf) -> (r: Report<CallOf, Result<Kept, Error>>)
    ensures
        r.asked() == asked,
{
    let answer = context.with(
        |js| asked.function.clone().restore(&js)?.call((asked.first.clone(), asked.second.clone())),
    );
    Report { asked, answer }
}

/// Tells the kinds of value apart that a check may return. The report is on that value; nothing is
/// claimed of which it is.
#[verifier::external_body]
pub(crate) fn check_result(context: &Context, asked: Kept) -> (r: Report<Kept, Result<JsResult, Error>>)
    ensures
        r.asked() == asked,
{
    let answer = context.with(|js| {
        let v = asked.clone().restore(&js)?;
        Ok(match (v.as_bool(), v.as_string().map(|s| s.to_string())) {
            (Some(b), _) => JsResult::Bool(b),
            (_, Some(Ok(s))) => JsResult::Str(s),
            _ if v.is_undefined() => JsResult::Undefined,
            _ if v.is_null() => JsResult::Null,
            _ => JsResult::Other,
        })
    });
    Report { asked, answer }
}

} // verus!
