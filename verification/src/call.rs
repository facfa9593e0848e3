//! How the arguments of a call are bound to the parameters of a closure.

use crate::error::{Error, SpecError};
use crate::text::{is_rest, rest_stem, stem};
use crate::value::{view_all, SpecValue, Value};
use vstd::prelude::*;

verus! {

/// A name and the value it is bound to.
#[derive(Debug, PartialEq)]
pub struct Binding {
    pub name: String,
    pub value: Value,
}

impl View for Binding {
    type V = (Seq<char>, SpecValue);

    open spec fn view(&self) -> (Seq<char>, SpecValue) {
        (self.name@, self.value@)
    }
}

/// The models of a sequence of bindings, element by element.
pub open spec fn bindings_view(items: Seq<Binding>) -> Seq<(Seq<char>, SpecValue)> {
    Seq::new(items.len(), |i: int| items[i]@)
}

/// The model of a list of bindings or a failure.
pub open spec fn bindings_result(r: Result<Vec<Binding>, Error>) -> Result<
    Seq<(Seq<char>, SpecValue)>,
    SpecError,
> {
    match r {
        Ok(items) => Ok(bindings_view(items@)),
        Err(e) => Err(e@),
    }
}

/// `done`, followed by `tail` unless `tail` is a failure.
pub open spec fn join(
    done: Seq<(Seq<char>, SpecValue)>,
    tail: Result<Seq<(Seq<char>, SpecValue)>, SpecError>,
) -> Result<Seq<(Seq<char>, SpecValue)>, SpecError> {
    match tail {
        Ok(rest) => Ok(done + rest),
        Err(e) => Err(e),
    }
}

/// What the parameters are bound to, in the order they were declared, when
/// `args` are the arguments that are left for them and `at` is the position
/// of the first parameter in the closure's list. A plain parameter takes the
/// next argument and fails if there is none. A rest parameter takes all the
/// arguments that are left, as an array. A parameter that is no identifier
/// fails. Arguments that no parameter takes are dropped.
pub open spec fn bound(params: Seq<SpecValue>, args: Seq<SpecValue>, at: int) -> Result<
    Seq<(Seq<char>, SpecValue)>,
    SpecError,
>
    decreases params.len(),
{
    if params.len() == 0 {
        Ok(Seq::empty())
    } else {
        match params[0] {
            SpecValue::Ident(name) => if is_rest(name) {
                join(
                    seq![(stem(name), SpecValue::Array(args))],
                    bound(params.drop_first(), Seq::empty(), at + 1),
                )
            } else if args.len() == 0 {
                Err(SpecError::MissingArgument(name))
            } else {
                join(seq![(name, args[0])], bound(params.drop_first(), args.drop_first(), at + 1))
            },
            _ => Err(SpecError::BadParameter(at)),
        }
    }
}

/// Plain parameters with the given names.
pub open spec fn plain_params(names: Seq<Seq<char>>) -> Seq<SpecValue> {
    Seq::new(names.len(), |i: int| SpecValue::Ident(names[i]))
}

/// Each name bound to the argument at its position.
pub open spec fn paired(names: Seq<Seq<char>>, args: Seq<SpecValue>) -> Seq<
    (Seq<char>, SpecValue),
> {
    Seq::new(names.len(), |i: int| (names[i], args[i]))
}

/// A rest parameter takes the surplus. When a closure's parameters are plain
/// ones followed by one rest parameter, and there is an argument for every
/// plain parameter, each plain parameter is bound to the argument at its
/// position and the rest parameter to an array of the arguments after those,
/// in their order: the empty array when there are exactly as many arguments
/// as plain parameters.
pub proof fn law_rest_takes_surplus(
    names: Seq<Seq<char>>,
    rest: Seq<char>,
    args: Seq<SpecValue>,
    at: int,
)
    requires
        forall|i: int| 0 <= i < names.len() ==> !is_rest(#[trigger] names[i]),
        is_rest(rest),
        args.len() >= names.len(),
    ensures
        bound(plain_params(names).push(SpecValue::Ident(rest)), args, at) == Ok::<
            Seq<(Seq<char>, SpecValue)>,
            SpecError,
        >(
            paired(names, args).push(
                (stem(rest), SpecValue::Array(args.skip(names.len() as int))),
            ),
        ),
        args.len() == names.len() ==> args.skip(names.len() as int) == Seq::<SpecValue>::empty(),
    decreases names.len(),
{
    let params = plain_params(names).push(SpecValue::Ident(rest));
    let expected = paired(names, args).push(
        (stem(rest), SpecValue::Array(args.skip(names.len() as int))),
    );
    if names.len() == 0 {
        assert(params.drop_first() =~= Seq::<SpecValue>::empty());
        assert(args.skip(0) =~= args);
        assert(bound(params.drop_first(), Seq::empty(), at + 1) == Ok::<
            Seq<(Seq<char>, SpecValue)>,
            SpecError,
        >(Seq::empty()));
        assert(seq![(stem(rest), SpecValue::Array(args))] + Seq::empty() =~= expected);
    } else {
        let fewer = names.drop_first();
        assert(params[0] == SpecValue::Ident(names[0]));
        assert(params.drop_first() =~= plain_params(fewer).push(SpecValue::Ident(rest)));
        assert forall|i: int| 0 <= i < fewer.len() implies !is_rest(#[trigger] fewer[i]) by {
            assert(fewer[i] == names[i + 1]);
        }
        law_rest_takes_surplus(fewer, rest, args.drop_first(), at + 1);
        assert(args.drop_first().skip(fewer.len() as int) =~= args.skip(names.len() as int));
        assert(seq![(names[0], args[0])] + paired(fewer, args.drop_first()).push(
            (stem(rest), SpecValue::Array(args.skip(names.len() as int))),
        ) =~= expected);
    }
    if args.len() == names.len() {
        assert(args.skip(names.len() as int) =~= Seq::<SpecValue>::empty());
    }
}

proof fn lemma_join_push(
    done: Seq<(Seq<char>, SpecValue)>,
    next: (Seq<char>, SpecValue),
    tail: Result<Seq<(Seq<char>, SpecValue)>, SpecError>,
)
    ensures
        join(done, join(seq![next], tail)) == join(done.push(next), tail),
{
    if let Ok(rest) = tail {
        assert(done + (seq![next] + rest) =~= done.push(next) + rest);
    }
}

/// Binds the arguments of a call to the parameters of a closure.
pub fn bind(params: &Vec<Value>, args: Vec<Value>) -> (r: Result<Vec<Binding>, Error>)
    ensures
        bindings_result(r) == bound(view_all(params@), view_all(args@), 0),
{
    let ghost ps = view_all(params@);
    let ghost given = view_all(args@);
    let mut pool = args;
    let mut out: Vec<Binding> = Vec::new();
    let mut next: usize = 0;
    let mut i: usize = 0;
    proof {
        assert(ps.skip(0) =~= ps);
        assert(given.skip(0) =~= given);
        assert(bindings_view(out@) =~= Seq::empty());
        assert(Seq::<(Seq<char>, SpecValue)>::empty() + Seq::empty() =~= Seq::empty());
        lemma_join_empty(bound(ps, given, 0));
    }
    while i < params.len()
        invariant
            i <= params.len(),
            ps == view_all(params@),
            next <= pool.len(),
            given == view_all(args@),
            bound(ps, given, 0) == join(
                bindings_view(out@),
                bound(ps.skip(i as int), view_all(pool@).skip(next as int), i as int),
            ),
        decreases params.len() - i,
    {
        let ghost rest_params = ps.skip(i as int);
        let ghost left = view_all(pool@).skip(next as int);
        let ghost done = bindings_view(out@);
        proof {
            assert(rest_params[0] == params[i as int]@);
            assert(rest_params.drop_first() =~= ps.skip(i + 1));
        }
        match &params[i] {
            Value::Ident(name) => {
                match rest_stem(name.as_str()) {
                    Some(short) => {
                        let tail = pool.split_off(next);
                        proof {
                            assert(view_all(tail@) =~= left);
                            assert(view_all(pool@).skip(next as int) =~= Seq::<SpecValue>::empty());
                        }
                        let b = Binding { name: short, value: Value::Array(tail) };
                        proof {
                            lemma_join_push(
                                done,
                                b@,
                                bound(rest_params.drop_first(), Seq::empty(), i + 1),
                            );
                        }
                        out.push(b);
                        proof {
                            assert(bindings_view(out@) =~= done.push(b@));
                        }
                    },
                    None => {
                        if next >= pool.len() {
                            assert(left.len() == 0);
                            assert(bound(rest_params, left, i as int) == Err::<
                                Seq<(Seq<char>, SpecValue)>,
                                SpecError,
                            >(SpecError::MissingArgument(name@)));
                            return Err(Error::MissingArgument(name.clone()));
                        }
                        let mut value = Value::Nil;
                                                core::mem::swap(&mut value, &mut pool[next]);
                        next += 1;
                        proof {
                            assert(left[0] == value@);
                            assert(view_all(pool@).skip(next as int) =~= left.drop_first());
                        }
                        let b = Binding { name: name.clone(), value };
                        proof {
                            lemma_join_push(
                                done,
                                b@,
                                bound(rest_params.drop_first(), left.drop_first(), i + 1),
                            );
                        }
                        out.push(b);
                        proof {
                            assert(bindings_view(out@) =~= done.push(b@));
                        }
                    },
                }
            },
            _ => {
                assert(!(rest_params[0] is Ident));
                assert(bound(rest_params, left, i as int) == Err::<
                    Seq<(Seq<char>, SpecValue)>,
                    SpecError,
                >(SpecError::BadParameter(i as int)));
                return Err(Error::BadParameter(i));
            },
        }
        i += 1;
    }
    proof {
        assert(ps.skip(params.len() as int) =~= Seq::<SpecValue>::empty());
        assert(bindings_view(out@) + Seq::empty() =~= bindings_view(out@));
    }
    Ok(out)
}

proof fn lemma_join_empty(tail: Result<Seq<(Seq<char>, SpecValue)>, SpecError>)
    ensures
        join(Seq::empty(), tail) == tail,
{
    if let Ok(rest) = tail {
        assert(Seq::<(Seq<char>, SpecValue)>::empty() + rest =~= rest);
    }
}

} // verus!
