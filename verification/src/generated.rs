//! What the generated text holds, and where it goes.
use crate::dependency::{DependencyKindView, DependencyView};
use crate::hir::{ContractId, Hir, Item};
use crate::path;
use crate::path::PathId;
use crate::rewrite;
use crate::rewrite::ContractData;
use crate::text;
use crate::updates::UpdateView;
use vstd::prelude::*;

verus! {

/// The number that the decimal digits in `digits` write.
pub open spec fn number_of(digits: Seq<char>) -> int
    decreases digits.len(),
{
    if digits.len() == 0 {
        0
    } else {
        10 * number_of(digits.drop_last()) + (digits.last() as int - '0' as int)
    }
}

/// A number is written in decimal digits, without leading zeros, and reads back as itself.
pub proof fn law_numbers_read_back(n: nat)
    ensures
        number_of(text::decimal_of(n)) == n,
        forall|i: int|
            0 <= i < text::decimal_of(n).len() ==> '0' as int <= (#[trigger] text::decimal_of(
                n,
            )[i]) as int <= '9' as int,
        text::decimal_of(n).len() > 0,
        n > 0 ==> text::decimal_of(n)[0] != '0',
    decreases n,
{
    let digits = text::decimal_of(n);
    if n < 10 {
        assert(digits.drop_last() =~= Seq::empty());
        assert(number_of(digits.drop_last()) == 0);
        assert(digits.last() as int == '0' as int + n);
    } else {
        law_numbers_read_back(n / 10);
        assert(digits.drop_last() =~= text::decimal_of(n / 10));
        assert(digits.last() as int == '0' as int + n % 10);
        assert(digits[0] == text::decimal_of(n / 10)[0]);
        assert forall|i: int| 0 <= i < digits.len() implies '0' as int <= (
        #[trigger] digits[i]) as int <= '9' as int by {
            if i < digits.len() - 1 {
                assert(digits[i] == text::decimal_of(n / 10)[i]);
            }
        }
    }
}

/// The bytes of a slice are those of the text in its range.
pub proof fn law_slices_hold_their_bytes(source: Seq<char>, start: int, end: int)
    requires
        text::is_slice(source, start, end),
    ensures
        vstd::utf8::encode_utf8(text::slice_of(source, start, end)) == vstd::utf8::encode_utf8(
            source,
        ).subrange(start, end),
{
    let bytes = vstd::utf8::encode_utf8(source);
    vstd::utf8::encode_utf8_valid_utf8(source);
    text::lemma_boundary_in_prefix(source, start, end);
    vstd::utf8::valid_utf8_split(bytes, end);
    let head = bytes.subrange(0, end);
    vstd::utf8::valid_utf8_split(head, start);
    assert(head.subrange(start, end) =~= bytes.subrange(start, end));
    vstd::utf8::decode_utf8_encode_utf8(bytes.subrange(start, end));
}

/// Joined lists are joined by the separator, a list of one text is that text, and an empty list is
/// empty.
pub proof fn law_lists_are_joined(front: Seq<Seq<char>>, back: Seq<Seq<char>>, separator: Seq<char>)
    ensures
        front.len() > 0 && back.len() > 0 ==> text::joined(front + back, separator) == text::joined(
            front,
            separator,
        ) + separator + text::joined(back, separator),
        front.len() == 1 ==> text::joined(front, separator) == front[0],
        front.len() == 0 ==> text::joined(front, separator) == Seq::<char>::empty(),
    decreases back.len(),
{
    if front.len() > 0 && back.len() > 0 {
        let whole = front + back;
        assert(whole.last() == back.last());
        if back.len() == 1 {
            assert(whole.drop_last() =~= front);
        } else {
            law_lists_are_joined(front, back.drop_last(), separator);
            assert(whole.drop_last() =~= front + back.drop_last());
            assert(text::joined(whole, separator) =~= text::joined(front, separator) + separator
                + text::joined(back, separator));
        }
    }
}

/// Whether `part` stands somewhere in `whole`.
pub open spec fn holds(whole: Seq<char>, part: Seq<char>) -> bool {
    exists|at: int|
        0 <= at <= whole.len() - part.len() && #[trigger] whole.subrange(at, at + part.len())
            == part
}

/// The closing brackets that are due behind `written`, if those in `due` were due before it and the
/// brackets in it match.
pub open spec fn due_behind(written: Seq<char>, due: Seq<char>) -> Option<Seq<char>>
    decreases written.len(),
{
    if written.len() == 0 {
        Some(due)
    } else {
        let c = written[0];
        let rest = written.drop_first();
        if c == '(' {
            due_behind(rest, due.push(')'))
        } else if c == '{' {
            due_behind(rest, due.push('}'))
        } else if c == ')' || c == '}' {
            if due.len() > 0 && due.last() == c {
                due_behind(rest, due.drop_last())
            } else {
                None
            }
        } else {
            due_behind(rest, due)
        }
    }
}

/// Whether `written` closes exactly the brackets that it opens.
pub open spec fn balanced(written: Seq<char>) -> bool {
    forall|due: Seq<char>| #[trigger] due_behind(written, due) == Some(due)
}

/// Whether there is no bracket in `written`.
pub open spec fn without_brackets(written: Seq<char>) -> bool {
    forall|i: int|
        0 <= i < written.len() ==> (#[trigger] written[i]) != '(' && written[i] != ')' && written[i]
            != '{' && written[i] != '}'
}

proof fn lemma_due_behind_both(front: Seq<char>, back: Seq<char>, due: Seq<char>)
    ensures
        due_behind(front + back, due) == match due_behind(front, due) {
            Some(next) => due_behind(back, next),
            None => None,
        },
    decreases front.len(),
{
    let whole = front + back;
    if front.len() == 0 {
        assert(whole =~= back);
    } else {
        let c = front[0];
        assert(whole[0] == c);
        assert(whole.drop_first() =~= front.drop_first() + back);
        if c == '(' {
            lemma_due_behind_both(front.drop_first(), back, due.push(')'));
        } else if c == '{' {
            lemma_due_behind_both(front.drop_first(), back, due.push('}'));
        } else if c == ')' || c == '}' {
            if due.len() > 0 && due.last() == c {
                lemma_due_behind_both(front.drop_first(), back, due.drop_last());
            }
        } else {
            lemma_due_behind_both(front.drop_first(), back, due);
        }
    }
}

proof fn lemma_without_brackets(written: Seq<char>, due: Seq<char>)
    requires
        without_brackets(written),
    ensures
        due_behind(written, due) == Some(due),
    decreases written.len(),
{
    if written.len() > 0 {
        let rest = written.drop_first();
        assert forall|i: int| 0 <= i < rest.len() implies (#[trigger] rest[i]) != '(' && rest[i]
            != ')' && rest[i] != '{' && rest[i] != '}' by {
            assert(rest[i] == written[i + 1]);
        }
        lemma_without_brackets(rest, due);
    }
}

proof fn lemma_digits_without_brackets(n: nat)
    ensures
        without_brackets(text::decimal_of(n)),
{
    law_numbers_read_back(n);
    let digits = text::decimal_of(n);
    assert forall|i: int| 0 <= i < digits.len() implies (#[trigger] digits[i]) != '(' && digits[i]
        != ')' && digits[i] != '{' && digits[i] != '}' by {
        assert('0' as int <= digits[i] as int <= '9' as int);
    }
}

/// What the brackets in a literal come to.
proof fn lemma_plain_literals()
    ensures
        without_brackets("VmContractHelper"@),
        without_brackets("this."@),
        without_brackets("addressTo"@),
        without_brackets("\""@),
        without_brackets(", _value: "@),
        without_brackets(", _salt: "@),
        without_brackets(", _args: encodeArgs"@),
        without_brackets(".FoundryPpConstructorArgs"@),
{
    reveal_strlit("VmContractHelper");
    reveal_strlit("this.");
    reveal_strlit("addressTo");
    reveal_strlit("\"");
    reveal_strlit(", _value: ");
    reveal_strlit(", _salt: ");
    reveal_strlit(", _args: encodeArgs");
    reveal_strlit(".FoundryPpConstructorArgs");
}

/// A text with one opening bracket, or two, at a place, and none elsewhere.
proof fn lemma_opens(written: Seq<char>, at: int, due: Seq<char>)
    requires
        0 <= at < written.len(),
        written[at] == '(',
        without_brackets(written.subrange(0, at)),
        without_brackets(written.subrange(at + 1, written.len() as int)),
    ensures
        due_behind(written, due) == Some(due.push(')')),
{
    let front = written.subrange(0, at);
    let back = written.subrange(at + 1, written.len() as int);
    let bracket = seq!['('];
    assert(written =~= front + (bracket + back));
    lemma_due_behind_both(front, bracket + back, due);
    lemma_without_brackets(front, due);
    lemma_due_behind_both(bracket, back, due);
    reveal_with_fuel(due_behind, 2);
    assert(bracket.drop_first() =~= Seq::empty());
    assert(due_behind(bracket, due) == Some(due.push(')')));
    lemma_without_brackets(back, due.push(')'));
}

proof fn lemma_opening_literals(due: Seq<char>)
    ensures
        due_behind("("@, due) == Some(due.push(')')),
        due_behind("(payable("@, due) == Some(due.push(')').push(')')),
        due_behind(".deployCode({_artifact: \""@, due) == Some(due.push(')').push('}')),
        due_behind("(DeployHelper"@, due) == Some(due.push(')')),
        due_behind(".getCode(\""@, due) == Some(due.push(')')),
{
    reveal_strlit("(");
    reveal_strlit("(payable(");
    reveal_strlit(".deployCode({_artifact: \"");
    reveal_strlit("(DeployHelper");
    reveal_strlit(".getCode(\"");
    lemma_opens("("@, 0, due);
    lemma_opens("(DeployHelper"@, 0, due);
    lemma_opens(".getCode(\""@, 8, due);
    let payable = "(payable("@;
    let front = payable.subrange(0, 8);
    let back = payable.subrange(8, 9);
    assert(payable =~= front + back);
    lemma_due_behind_both(front, back, due);
    lemma_opens(front, 0, due);
    lemma_opens(back, 0, due.push(')'));
    let deploy = ".deployCode({_artifact: \""@;
    let call = deploy.subrange(0, 12);
    let brace = seq!['{'];
    let tail = deploy.subrange(13, deploy.len() as int);
    assert(deploy =~= call + (brace + tail));
    lemma_due_behind_both(call, brace + tail, due);
    lemma_opens(call, 11, due);
    lemma_due_behind_both(brace, tail, due.push(')'));
    reveal_with_fuel(due_behind, 2);
    assert(brace.drop_first() =~= Seq::empty());
    assert(due_behind(brace, due.push(')')) == Some(due.push(')').push('}')));
    lemma_without_brackets(tail, due.push(')').push('}'));
}

/// A closing bracket that is due.
proof fn lemma_closes(c: char, written: Seq<char>, due: Seq<char>)
    requires
        c == ')' || c == '}',
        written.len() > 0,
        written[0] == c,
    ensures
        due_behind(written, due.push(c)) == due_behind(written.drop_first(), due),
{
    assert(due.push(c).drop_last() =~= due);
}

proof fn lemma_closing_literals(due: Seq<char>)
    ensures
        due_behind(")"@, due.push(')')) == Some(due),
        due_behind("\")"@, due.push(')')) == Some(due),
        due_behind("})"@, due.push(')').push('}')) == Some(due),
        due_behind("}))"@, due.push(')').push(')').push('}')) == Some(due),
        due_behind("})))"@, due.push(')').push(')').push(')').push('}')) == Some(due),
{
    reveal_strlit(")");
    reveal_strlit("\")");
    reveal_strlit("})");
    reveal_strlit("}))");
    reveal_strlit("})))");
    let one = due.push(')');
    let two = one.push(')');
    let three = two.push(')');
    lemma_closes(')', ")"@, due);
    assert(")"@.drop_first() =~= Seq::empty());
    assert(due_behind(")"@, one) == Some(due));
    assert("\")"@.drop_first() =~= ")"@);
    lemma_closes('}', "})"@, one);
    assert("})"@.drop_first() =~= ")"@);
    lemma_closes('}', "}))"@, two);
    assert("}))"@.drop_first().drop_first() =~= ")"@);
    lemma_closes(')', "}))"@.drop_first(), one);
    lemma_closes('}', "})))"@, three);
    assert("})))"@.drop_first() =~= "}))"@.drop_first().push(')'));
    assert("})))"@.drop_first().drop_first().drop_first() =~= ")"@);
    lemma_closes(')', "})))"@.drop_first(), two);
    lemma_closes(')', "})))"@.drop_first().drop_first(), one);
}

/// The address of the cheatcode contract is balanced.
proof fn lemma_address(due: Seq<char>)
    ensures
        due_behind("(0x7109709ECfa91a80626fF3989D68f67F5b1DD12D)"@, due) == Some(due),
{
    let address = "(0x7109709ECfa91a80626fF3989D68f67F5b1DD12D)"@;
    reveal_strlit("(0x7109709ECfa91a80626fF3989D68f67F5b1DD12D)");
    let front = address.subrange(0, address.len() - 1);
    let back = address.subrange(address.len() - 1, address.len() as int);
    assert(address =~= front + back);
    lemma_due_behind_both(front, back, due);
    lemma_opens(front, 0, due);
    lemma_closes(')', back, due);
    assert(back.drop_first() =~= Seq::empty());
}

/// Adds `part`, which opens and closes nothing, to what was written.
proof fn lemma_add_balanced(front: Seq<char>, part: Seq<char>, due: Seq<char>, next: Seq<char>)
    requires
        due_behind(front, due) == Some(next),
        due_behind(part, next) == Some(next),
    ensures
        due_behind(front + part, due) == Some(next),
{
    lemma_due_behind_both(front, part, due);
}

/// What the call of the cheatcode contract, up to its options, leaves to be closed.
proof fn lemma_deployment(
    id: nat,
    artifact: Seq<char>,
    name: Seq<char>,
    value: Option<Seq<char>>,
    salt: Option<Seq<char>>,
    try_stmt: Option<bool>,
    due: Seq<char>,
)
    requires
        balanced(name),
        balanced(artifact),
        value is Some ==> balanced(value->0),
        salt is Some ==> balanced(salt->0),
    ensures
        due_behind(rewrite::deployment(id, artifact, name, value, salt, try_stmt), due) == Some(
            match try_stmt {
                Some(true) => due.push(')').push(')').push('}'),
                Some(false) => due.push(')').push('}'),
                None => due.push(')').push(')').push(')').push('}'),
            },
        ),
{
    lemma_plain_literals();
    lemma_digits_without_brackets(id);
    let digits = text::decimal_of(id);
    // What stands before the call.
    let opening = rewrite::opening(id, name, try_stmt);
    let open = match try_stmt {
        Some(true) => due.push(')'),
        Some(false) => due,
        None => due.push(')').push(')'),
    };
    assert(due_behind(opening, due) == Some(open)) by {
        match try_stmt {
            Some(true) => {
                let cast = rewrite::cast_name(id, name);
                lemma_without_brackets("addressTo"@, due);
                assert(due_behind(name, due) == Some(due));
                lemma_add_balanced("addressTo"@, name, due, due);
                lemma_without_brackets(digits, due);
                lemma_add_balanced("addressTo"@ + name, digits, due, due);
                lemma_without_brackets("this."@, due);
                lemma_add_balanced("this."@, cast, due, due);
                lemma_due_behind_both("this."@ + cast, "("@, due);
                lemma_opening_literals(due);
            },
            Some(false) => {},
            None => {
                assert(due_behind(name, due) == Some(due));
                lemma_due_behind_both(name, "(payable("@, due);
                lemma_opening_literals(due);
            },
        }
    }
    let vm = rewrite::vm(id);
    assert(due_behind(vm, open) == Some(open)) by {
        lemma_without_brackets("VmContractHelper"@, open);
        lemma_without_brackets(digits, open);
        lemma_add_balanced("VmContractHelper"@, digits, open, open);
        lemma_address(open);
        lemma_add_balanced(
            rewrite::vm_interface(id),
            "(0x7109709ECfa91a80626fF3989D68f67F5b1DD12D)"@,
            open,
            open,
        );
    }
    lemma_add_balanced(opening, vm, due, open);
    let called = opening + vm + ".deployCode({_artifact: \""@;
    let inner = open.push(')').push('}');
    lemma_due_behind_both(opening + vm, ".deployCode({_artifact: \""@, due);
    lemma_opening_literals(open);
    assert(due_behind(artifact, inner) == Some(inner));
    lemma_add_balanced(called, artifact, due, inner);
    lemma_without_brackets("\""@, inner);
    lemma_add_balanced(called + artifact, "\""@, due, inner);
    let quoted = called + artifact + "\""@;
    let with_value = rewrite::argument(", _value: "@, value);
    lemma_argument(", _value: "@, value, inner);
    lemma_add_balanced(quoted, with_value, due, inner);
    let with_salt = rewrite::argument(", _salt: "@, salt);
    lemma_argument(", _salt: "@, salt, inner);
    lemma_add_balanced(quoted + with_value, with_salt, due, inner);
}

proof fn lemma_argument(label: Seq<char>, value: Option<Seq<char>>, due: Seq<char>)
    requires
        without_brackets(label),
        value is Some ==> balanced(value->0),
    ensures
        due_behind(rewrite::argument(label, value), due) == Some(due),
{
    lemma_without_brackets(label, due);
    if value is Some {
        assert(due_behind(value->0, due) == Some(due));
        lemma_add_balanced(label, value->0, due, due);
    }
}

/// Whether the texts that `dependency` takes over from its file are balanced.
pub open spec fn takes_over_balanced(dependency: DependencyView) -> bool {
    dependency.kind matches DependencyKindView::New { name, value, salt, .. } ==> {
        &&& balanced(name)
        &&& value is Some ==> balanced(value->0)
        &&& salt is Some ==> balanced(salt->0)
    }
}

/// Replacements close exactly the brackets that they open, in each form: the text that replaces a
/// whole reference does, and where a creation keeps its arguments, what stands before and behind the
/// arguments does together with them.
pub proof fn law_replacements_are_balanced(
    id: nat,
    dependency: DependencyView,
    data: ContractData,
    update: UpdateView,
    tail: UpdateView,
    args: Seq<char>,
)
    requires
        takes_over_balanced(dependency),
        balanced(data.artifact@),
        balanced(args),
        rewrite::replacement(id, dependency, data).contains(update),
        rewrite::replacement(id, dependency, data).contains(tail),
    ensures
        dependency.kind is CreationCode || !data.has_constructor_data ==> balanced(update.text),
        dependency.kind is New && data.has_constructor_data && update.text != tail.text
            ==> balanced(update.text + args + tail.text) || balanced(
            tail.text + args + update.text,
        ),
{
    lemma_plain_literals();
    match dependency.kind {
        DependencyKindView::CreationCode => {
            assert forall|due: Seq<char>| #[trigger] due_behind(update.text, due) == Some(due) by {
                let vm = rewrite::vm(id);
                let digits = text::decimal_of(id);
                lemma_digits_without_brackets(id);
                lemma_without_brackets("VmContractHelper"@, due);
                lemma_without_brackets(digits, due);
                lemma_add_balanced("VmContractHelper"@, digits, due, due);
                lemma_address(due);
                lemma_add_balanced(
                    rewrite::vm_interface(id),
                    "(0x7109709ECfa91a80626fF3989D68f67F5b1DD12D)"@,
                    due,
                    due,
                );
                lemma_due_behind_both(vm, ".getCode(\""@, due);
                lemma_opening_literals(due);
                let open = due.push(')');
                assert(due_behind(data.artifact@, open) == Some(open));
                lemma_add_balanced(vm + ".getCode(\""@, data.artifact@, due, open);
                lemma_due_behind_both(vm + ".getCode(\""@ + data.artifact@, "\")"@, due);
                lemma_closing_literals(due);
            }
        },
        DependencyKindView::New { name, args_length, call_args_offset, value, salt, try_stmt } => {
            let deployment = rewrite::deployment(id, data.artifact@, name, value, salt, try_stmt);
            let closing = rewrite::closing(try_stmt);
            if !data.has_constructor_data {
                assert forall|due: Seq<char>| #[trigger] due_behind(update.text, due) == Some(
                    due,
                ) by {
                    lemma_deployment(id, data.artifact@, name, value, salt, try_stmt, due);
                    lemma_due_behind_both(deployment, closing, due);
                    lemma_closing_literals(due);
                }
            } else if update.text != tail.text {
                let target = dependency.referenced_contract as nat;
                let encoded = rewrite::encoded_args(target);
                let before = deployment + encoded;
                let behind = ")"@ + closing;
                let whole = before + args + behind;
                assert forall|due: Seq<char>| #[trigger] due_behind(whole, due) == Some(due) by {
                    lemma_deployment(id, data.artifact@, name, value, salt, try_stmt, due);
                    let inner = due_behind(deployment, due)->0;
                    lemma_encoded_args(target, inner);
                    lemma_due_behind_both(deployment, encoded, due);
                    let called = inner.push(')');
                    assert(due_behind(args, called) == Some(called));
                    lemma_add_balanced(before, args, due, called);
                    lemma_due_behind_both(before + args, behind, due);
                    lemma_due_behind_both(")"@, closing, called);
                    lemma_closing_literals(inner);
                    lemma_closing_literals(due);
                }
                assert(update.text == before && tail.text == behind || update.text == behind
                    && tail.text == before);
            }
        },
    }
}

proof fn lemma_encoded_args(target: nat, due: Seq<char>)
    ensures
        due_behind(rewrite::encoded_args(target), due) == Some(due.push(')')),
{
    lemma_plain_literals();
    lemma_digits_without_brackets(target);
    let digits = text::decimal_of(target);
    let open = due.push(')');
    lemma_without_brackets(", _args: encodeArgs"@, due);
    lemma_without_brackets(digits, due);
    lemma_add_balanced(", _args: encodeArgs"@, digits, due, due);
    lemma_due_behind_both(", _args: encodeArgs"@ + digits, "(DeployHelper"@, due);
    lemma_opening_literals(due);
    let called = ", _args: encodeArgs"@ + digits + "(DeployHelper"@;
    lemma_without_brackets(digits, open);
    lemma_add_balanced(called, digits, due, open);
    lemma_without_brackets(".FoundryPpConstructorArgs"@, open);
    lemma_add_balanced(called + digits, ".FoundryPpConstructorArgs"@, due, open);
}

/// A reference to creation code is replaced as a whole by a call of `getCode` with the artifact.
pub proof fn law_creation_code_is_read_from_the_artifact(
    id: nat,
    dependency: DependencyView,
    data: ContractData,
    update: UpdateView,
)
    requires
        dependency.kind is CreationCode,
    ensures
        rewrite::replacement(id, dependency, data).contains(update) <==> {
            &&& update.start == dependency.loc.start
            &&& update.end == dependency.loc.end
            &&& update.text == "VmContractHelper"@ + text::decimal_of(id)
                + "(0x7109709ECfa91a80626fF3989D68f67F5b1DD12D)"@ + ".getCode(\""@ + data.artifact@
                + "\")"@
        },
{
}

/// What a deployment in contract `id` reads, up to its constructor arguments: the artifact, and the
/// `value` and the `salt` of the creation where it has them.
pub open spec fn deployment_reads(
    id: nat,
    artifact: Seq<char>,
    name: Seq<char>,
    value: Option<Seq<char>>,
    salt: Option<Seq<char>>,
    try_stmt: Option<bool>,
) -> Seq<char> {
    let before = match try_stmt {
        None => name + "(payable("@,
        Some(custom_return) => if custom_return {
            "this."@ + ("addressTo"@ + name + text::decimal_of(id)) + "("@
        } else {
            Seq::empty()
        },
    };
    let paid = match value {
        Some(amount) => ", _value: "@ + amount,
        None => Seq::empty(),
    };
    let salted = match salt {
        Some(salt) => ", _salt: "@ + salt,
        None => Seq::empty(),
    };
    before + ("VmContractHelper"@ + text::decimal_of(id)
        + "(0x7109709ECfa91a80626fF3989D68f67F5b1DD12D)"@) + ".deployCode({_artifact: \""@ + artifact
        + "\""@ + paid + salted
}

/// What closes a deployment.
pub open spec fn deployment_ends(try_stmt: Option<bool>) -> Seq<char> {
    match try_stmt {
        None => "})))"@,
        Some(custom_return) => if custom_return {
            "}))"@
        } else {
            "})"@
        },
    }
}

/// A creation becomes a deployment of the artifact that keeps the value and the salt. Without a
/// constructor helper one update replaces the creation as a whole; with one, an update replaces what
/// stands before the arguments, another is made behind them, and the arguments stay.
pub proof fn law_creations_become_deployments(
    id: nat,
    dependency: DependencyView,
    data: ContractData,
    update: UpdateView,
)
    requires
        dependency.kind is New,
        dependency.loc.end + dependency.kind->args_length <= usize::MAX,
        dependency.loc.end + dependency.kind->call_args_offset <= usize::MAX,
    ensures
        ({
            let kind = dependency.kind;
            let target = dependency.referenced_contract as nat;
            let deployment = deployment_reads(
                id,
                data.artifact@,
                kind->name,
                kind->value,
                kind->salt,
                kind->try_stmt,
            );
            let behind = dependency.loc.end + kind->args_length;
            rewrite::replacement(id, dependency, data).contains(update) <==> if data.has_constructor_data {
                ||| {
                    &&& update.start == dependency.loc.start
                    &&& update.end == dependency.loc.end + kind->call_args_offset
                    &&& update.text == deployment + (", _args: encodeArgs"@ + text::decimal_of(target)
                        + "(DeployHelper"@ + text::decimal_of(target)
                        + ".FoundryPpConstructorArgs"@)
                }
                ||| {
                    &&& update.start == behind
                    &&& update.end == behind
                    &&& update.text == ")"@ + deployment_ends(kind->try_stmt)
                }
            } else {
                &&& update.start == dependency.loc.start
                &&& update.end == behind
                &&& update.text == deployment + deployment_ends(kind->try_stmt)
            }
        }),
{
    let kind = dependency.kind;
    let deployment = deployment_reads(
        id,
        data.artifact@,
        kind->name,
        kind->value,
        kind->salt,
        kind->try_stmt,
    );
    assert(deployment == rewrite::deployment(
        id,
        data.artifact@,
        kind->name,
        kind->value,
        kind->salt,
        kind->try_stmt,
    ));
    assert(deployment_ends(kind->try_stmt) == rewrite::closing(kind->try_stmt));
}

/// Every reference to a known contract is replaced, in the file of the contract in which it stands.
pub proof fn law_known_references_are_replaced(
    hir: Hir,
    data: Map<ContractId, ContractData>,
    preprocessed: Map<ContractId, Seq<DependencyView>>,
    id: ContractId,
    i: int,
    file: Seq<char>,
    update: UpdateView,
)
    requires
        id < hir.contracts@.len(),
        preprocessed.contains_key(id),
        0 <= i < preprocessed[id].len(),
        data.contains_key(preprocessed[id][i].referenced_contract),
        hir.sources@[hir.contracts@[id as int].source as int].file matches Some(name) && name@ == file,
        rewrite::replacement(
            id as nat,
            preprocessed[id][i],
            data[preprocessed[id][i].referenced_contract],
        ).contains(update),
    ensures
        ({
            let updates = rewrite::all_updates(hir, data, preprocessed, hir.contracts@.len());
            &&& updates.contains_key(path::path_components(file))
            &&& updates[path::path_components(file)].contains(update)
        }),
{
    let n = hir.contracts@.len();
    let key = path::path_components(file);
    assert(rewrite::rewritten_in(hir, preprocessed, n, id, key));
    assert(rewrite::replacements(id as nat, data, preprocessed[id]).contains(update));
    assert(rewrite::contract_updates(hir, data, id, preprocessed[id]).contains(update));
}

/// The line that imports the constructor helper of contract `id`.
pub open spec fn import_line(id: nat) -> Seq<char> {
    "import {DeployHelper"@ + text::decimal_of(id) + ", encodeArgs"@ + text::decimal_of(id)
        + "} from \"foundry-pp/DeployHelper"@ + text::decimal_of(id) + ".sol\";"@
}

/// Whether `helpers` are the contracts, in order, that `dependencies` create through a known helper.
pub open spec fn are_used_helpers(
    contracts: nat,
    data: Map<ContractId, ContractData>,
    dependencies: Seq<DependencyView>,
    helpers: Seq<ContractId>,
) -> bool {
    &&& forall|i: int, j: int|
        0 <= i < j < helpers.len() ==> #[trigger] helpers[i] < #[trigger] helpers[j]
    &&& forall|target: ContractId| #[trigger]
        helpers.contains(target) <==> {
            &&& target < contracts
            &&& data.contains_key(target)
            &&& data[target].has_constructor_data
            &&& exists|i: int|
                0 <= i < dependencies.len() && (#[trigger] dependencies[i]).kind is New
                    && dependencies[i].referenced_contract == target
        }
}

/// What contract `id` adds at the end of its file: the imports of `helpers`, each on a line of its
/// own, and the cheatcodes under a name of its own.
pub open spec fn declarations_read(id: nat, helpers: Seq<ContractId>) -> Seq<char> {
    let lines = Seq::new(helpers.len(), |k: int| import_line(helpers[k] as nat));
    "\n"@ + text::joined(lines, "\n"@) + "\n\ninterface "@ + ("VmContractHelper"@ + text::decimal_of(id))
        + " {\n"@ + rewrite::VM_FUNCTIONS@ + "}"@
}

/// Whether `names` are the types, each once, to which `dependencies` on known contracts cast in `try`
/// statements.
pub open spec fn are_cast_names(
    data: Map<ContractId, ContractData>,
    dependencies: Seq<DependencyView>,
    names: Seq<Seq<char>>,
) -> bool {
    &&& names.no_duplicates()
    &&& forall|name: Seq<char>| #[trigger]
        names.contains(name) <==> exists|j: int|
            0 <= j < dependencies.len() && data.contains_key(
                (#[trigger] dependencies[j]).referenced_contract,
            ) && dependencies[j].kind is New && dependencies[j].kind->try_stmt == Some(true)
                && dependencies[j].kind->name == name
}

/// The function of contract `id` that turns an address into the contract type `name`.
pub open spec fn cast_reads(id: nat, name: Seq<char>) -> Seq<char> {
    "\n                            function "@ + ("addressTo"@ + name + text::decimal_of(id))
        + "(address addr) public pure returns ("@ + name + ") {\n                                return "@
        + name + "(addr);\n                            }\n                        "@
}

/// The functions of contract `id` that turn an address into `names`, one behind the other.
pub open spec fn casts_read(id: nat, names: Seq<Seq<char>>) -> Seq<char> {
    text::joined(Seq::new(names.len(), |k: int| cast_reads(id, names[k])), Seq::empty())
}

/// Whether `last` is the function that is declared last among `items`.
pub open spec fn is_last_function(items: Seq<Item>, last: usize) -> bool {
    exists|k: int|
        0 <= k < items.len() && #[trigger] items[k] == Item::Function(last) && forall|j: int|
            k < j < items.len() ==> #[trigger] items[j] is Nodes
}

proof fn lemma_used_helpers(
    contracts: nat,
    data: Map<ContractId, ContractData>,
    list: Seq<DependencyView>,
)
    requires
        contracts <= usize::MAX,
    ensures
        are_used_helpers(contracts, data, list, rewrite::used_helpers(data, list, contracts)),
{
    let helpers = rewrite::used_helpers(data, list, contracts);
    crate::laws::law_helpers_are_imported_once(data, list, contracts);
    assert forall|target: ContractId| #[trigger] helpers.contains(target) <==> {
        &&& target < contracts
        &&& data.contains_key(target)
        &&& data[target].has_constructor_data
        &&& exists|i: int|
            0 <= i < list.len() && (#[trigger] list[i]).kind is New && list[i].referenced_contract
                == target
    } by {
        if helpers.contains(target) {
            let i = choose|i: int|
                0 <= i < list.len() && rewrite::uses_helper(data, #[trigger] list[i], target);
            assert(list[i].kind is New);
        }
        if target < contracts && data.contains_key(target) && data[target].has_constructor_data
            && exists|i: int|
            0 <= i < list.len() && (#[trigger] list[i]).kind is New && list[i].referenced_contract
                == target {
            let i = choose|i: int|
                0 <= i < list.len() && (#[trigger] list[i]).kind is New
                    && list[i].referenced_contract == target;
            assert(rewrite::uses_helper(data, list[i], target));
        }
    }
}

proof fn lemma_declarations(id: nat, helpers: Seq<ContractId>)
    ensures
        rewrite::trailer(id, helpers) == declarations_read(id, helpers),
{
    let lines = Seq::new(helpers.len(), |k: int| import_line(helpers[k] as nat));
    assert(lines =~= helpers.map_values(
        |helper: ContractId| rewrite::helper_import(helper as nat),
    ));
}

proof fn lemma_cast_names(data: Map<ContractId, ContractData>, list: Seq<DependencyView>)
    ensures
        are_cast_names(data, list, rewrite::cast_types(data, list)),
{
    let names = rewrite::cast_types(data, list);
    crate::laws::law_casts_are_declared_once(data, list);
    assert forall|name: Seq<char>| #[trigger] names.contains(name) <==> exists|j: int|
        0 <= j < list.len() && data.contains_key((#[trigger] list[j]).referenced_contract)
            && list[j].kind is New && list[j].kind->try_stmt == Some(true) && list[j].kind->name
            == name by {
        if names.contains(name) {
            let j = choose|j: int|
                0 <= j < list.len() && rewrite::cast_type(data, #[trigger] list[j]) == Some(name);
            assert(list[j].kind->name == name);
        }
        if exists|j: int|
            0 <= j < list.len() && data.contains_key((#[trigger] list[j]).referenced_contract)
                && list[j].kind is New && list[j].kind->try_stmt == Some(true)
                && list[j].kind->name == name {
            let j = choose|j: int|
                0 <= j < list.len() && data.contains_key((#[trigger] list[j]).referenced_contract)
                    && list[j].kind is New && list[j].kind->try_stmt == Some(true)
                    && list[j].kind->name == name;
            assert(rewrite::cast_type(data, list[j]) == Some(name));
        }
    }
}

proof fn lemma_cast_functions(id: nat, names: Seq<Seq<char>>)
    ensures
        rewrite::cast_functions(id, names) == casts_read(id, names),
    decreases names.len(),
{
    let texts = Seq::new(names.len(), |k: int| cast_reads(id, names[k]));
    if names.len() > 0 {
        let front = names.drop_last();
        lemma_cast_functions(id, front);
        assert(texts.drop_last() =~= Seq::new(front.len(), |k: int| cast_reads(id, front[k])));
        assert(texts.last() == rewrite::cast_function(id, names.last()));
        if names.len() == 1 {
            assert(rewrite::cast_functions(id, front) =~= Seq::empty());
            assert(rewrite::cast_functions(id, names) =~= texts[0]);
        } else {
            assert(rewrite::cast_functions(id, names) =~= text::joined(
                texts.drop_last(),
                Seq::empty(),
            ) + Seq::<char>::empty() + texts.last());
        }
    }
}

/// A function is the last exactly where it is found as such.
proof fn lemma_last_function(items: Seq<Item>, last: usize)
    ensures
        is_last_function(items, last) <==> rewrite::last_function(items) == Some(last),
    decreases items.len(),
{
    if items.len() > 0 {
        let front = items.drop_last();
        lemma_last_function(front, last);
        match items.last() {
            Item::Function(id) => {
                assert(items[items.len() - 1] == Item::Function(id));
                if is_last_function(items, last) {
                    let k = choose|k: int|
                        0 <= k < items.len() && #[trigger] items[k] == Item::Function(last)
                            && forall|j: int| k < j < items.len() ==> #[trigger] items[j] is Nodes;
                    assert(k == items.len() - 1);
                }
            },
            Item::Nodes(_) => {
                if is_last_function(items, last) {
                    let k = choose|k: int|
                        0 <= k < items.len() && #[trigger] items[k] == Item::Function(last)
                            && forall|j: int| k < j < items.len() ==> #[trigger] items[j] is Nodes;
                    assert(front[k] == Item::Function(last));
                    assert forall|j: int| k < j < front.len() implies #[trigger] front[j] is Nodes by {
                        assert(front[j] == items[j]);
                    }
                }
                if is_last_function(front, last) {
                    let k = choose|k: int|
                        0 <= k < front.len() && #[trigger] front[k] == Item::Function(last)
                            && forall|j: int| k < j < front.len() ==> #[trigger] front[j] is Nodes;
                    assert(items[k] == Item::Function(last));
                    assert forall|j: int| k < j < items.len() implies #[trigger] items[j] is Nodes by {
                        if j < front.len() {
                            assert(front[j] == items[j]);
                        }
                    }
                }
            },
        }
    }
}

/// Nothing else is changed: an update of a file replaces a reference to a known contract in one of
/// its contracts, adds the functions that cast behind the last function of one that needs them, or
/// adds the declarations of one at the end of the file.
pub proof fn law_nothing_else_is_changed(
    hir: Hir,
    data: Map<ContractId, ContractData>,
    preprocessed: Map<ContractId, Seq<DependencyView>>,
    file: PathId,
    update: UpdateView,
) -> (id: ContractId)
    requires
        hir.contracts@.len() <= usize::MAX,
        rewrite::all_updates(hir, data, preprocessed, hir.contracts@.len()).contains_key(file),
        rewrite::all_updates(hir, data, preprocessed, hir.contracts@.len())[file].contains(update),
    ensures
        id < hir.contracts@.len(),
        preprocessed.contains_key(id),
        hir.sources@[hir.contracts@[id as int].source as int].file matches Some(name)
            && path::path_components(name@) == file,
        ({
            let source = hir.sources@[hir.contracts@[id as int].source as int].text@;
            ||| exists|i: int|
                0 <= i < preprocessed[id].len() && data.contains_key(
                    (#[trigger] preprocessed[id][i]).referenced_contract,
                ) && rewrite::replacement(
                    id as nat,
                    preprocessed[id][i],
                    data[preprocessed[id][i].referenced_contract],
                ).contains(update)
            ||| exists|last: usize, names: Seq<Seq<char>>|
                {
                    &&& #[trigger] is_last_function(hir.contracts@[id as int].items@, last)
                    &&& #[trigger] are_cast_names(data, preprocessed[id], names)
                    &&& names.len() > 0
                    &&& update.start == hir.functions@[last as int].span.end
                    &&& update.end == update.start
                    &&& update.text == casts_read(id as nat, names)
                }
            ||| exists|helpers: Seq<ContractId>|
                {
                    &&& #[trigger] are_used_helpers(
                        hir.contracts@.len(),
                        data,
                        preprocessed[id],
                        helpers,
                    )
                    &&& update.start == vstd::utf8::encode_utf8(source).len() as usize
                    &&& update.end == update.start
                    &&& update.text == declarations_read(id as nat, helpers)
                }
        }),
{
    let n = hir.contracts@.len();
    let id = choose|id: ContractId| #[trigger]
        rewrite::rewritten_in(hir, preprocessed, n, id, file) && rewrite::contract_updates(
            hir,
            data,
            id,
            preprocessed[id],
        ).contains(update);
    let list = preprocessed[id];
    let contract = hir.contracts@[id as int];
    let end = vstd::utf8::encode_utf8(hir.sources@[contract.source as int].text@).len() as usize;
    let helpers = rewrite::used_helpers(data, list, n);
    if rewrite::replacements(id as nat, data, list).contains(update) {
    } else if update == (UpdateView { start: end, end, text: rewrite::trailer(id as nat, helpers) }) {
        lemma_used_helpers(n, data, list);
        lemma_declarations(id as nat, helpers);
    } else {
        let names = rewrite::cast_types(data, list);
        let last = rewrite::last_function(contract.items@)->0;
        lemma_cast_names(data, list);
        lemma_cast_functions(id as nat, names);
        lemma_last_function(contract.items@, last);
        assert(is_last_function(contract.items@, last));
    }
    id
}

/// Behind the end of its file, a rewritten contract imports the constructor helpers that it calls,
/// each once, and no others, and declares the cheatcodes.
pub proof fn law_declarations_are_added(
    hir: Hir,
    data: Map<ContractId, ContractData>,
    preprocessed: Map<ContractId, Seq<DependencyView>>,
    id: ContractId,
    file: Seq<char>,
) -> (helpers: Seq<ContractId>)
    requires
        id < hir.contracts@.len() <= usize::MAX,
        preprocessed.contains_key(id),
        hir.sources@[hir.contracts@[id as int].source as int].file matches Some(name) && name@ == file,
    ensures
        are_used_helpers(hir.contracts@.len(), data, preprocessed[id], helpers),
        ({
            let updates = rewrite::all_updates(hir, data, preprocessed, hir.contracts@.len());
            let source = hir.sources@[hir.contracts@[id as int].source as int].text@;
            let end = vstd::utf8::encode_utf8(source).len() as usize;
            &&& updates.contains_key(path::path_components(file))
            &&& updates[path::path_components(file)].contains(
                UpdateView { start: end, end, text: declarations_read(id as nat, helpers) },
            )
        }),
{
    let n = hir.contracts@.len();
    let list = preprocessed[id];
    let helpers = rewrite::used_helpers(data, list, n);
    let source = hir.sources@[hir.contracts@[id as int].source as int].text@;
    let end = vstd::utf8::encode_utf8(source).len() as usize;
    lemma_used_helpers(n, data, list);
    lemma_declarations(id as nat, helpers);
    let update = UpdateView { start: end, end, text: rewrite::trailer(id as nat, helpers) };
    assert(rewrite::rewritten_in(hir, preprocessed, n, id, path::path_components(file)));
    assert(rewrite::contract_updates(hir, data, id, list).contains(update));
    helpers
}

/// Behind the last function of a contract, a function is added for each contract type to which a
/// `try` statement with a custom return casts, once, and for no other.
pub proof fn law_casts_are_added(
    hir: Hir,
    data: Map<ContractId, ContractData>,
    preprocessed: Map<ContractId, Seq<DependencyView>>,
    id: ContractId,
    file: Seq<char>,
    last: usize,
    i: int,
) -> (names: Seq<Seq<char>>)
    requires
        id < hir.contracts@.len(),
        preprocessed.contains_key(id),
        hir.sources@[hir.contracts@[id as int].source as int].file matches Some(name) && name@ == file,
        is_last_function(hir.contracts@[id as int].items@, last),
        0 <= i < preprocessed[id].len(),
        data.contains_key(preprocessed[id][i].referenced_contract),
        preprocessed[id][i].kind is New,
        preprocessed[id][i].kind->try_stmt == Some(true),
    ensures
        are_cast_names(data, preprocessed[id], names),
        ({
            let updates = rewrite::all_updates(hir, data, preprocessed, hir.contracts@.len());
            let behind = hir.functions@[last as int].span.end;
            &&& updates.contains_key(path::path_components(file))
            &&& updates[path::path_components(file)].contains(
                UpdateView { start: behind, end: behind, text: casts_read(id as nat, names) },
            )
        }),
{
    let n = hir.contracts@.len();
    let list = preprocessed[id];
    let names = rewrite::cast_types(data, list);
    lemma_last_function(hir.contracts@[id as int].items@, last);
    lemma_cast_names(data, list);
    assert(names.contains(list[i].kind->name));
    assert(names.len() > 0);
    lemma_cast_functions(id as nat, names);
    let behind = hir.functions@[last as int].span.end;
    let update = UpdateView {
        start: behind,
        end: behind,
        text: rewrite::cast_functions(id as nat, names),
    };
    assert(rewrite::contract_updates(hir, data, id, list).contains(update));
    assert(rewrite::rewritten_in(hir, preprocessed, n, id, path::path_components(file)));
    names
}

/// The declaration of the cheatcode that deploys with these named arguments.
pub open spec fn deploy_signature(args: bool, value: bool, salt: bool) -> Seq<char> {
    let with_args = if args {
        ", bytes memory _args"@
    } else {
        Seq::empty()
    };
    let with_value = if value {
        ", uint256 _value"@
    } else {
        Seq::empty()
    };
    let with_salt = if salt {
        ", bytes32 _salt"@
    } else {
        Seq::empty()
    };
    "    function deployCode(string memory _artifact"@ + with_args + with_value + with_salt
        + ") external returns (address);\n"@
}

/// Reads what stands in the declarations of the cheatcodes from `at` on.
proof fn lemma_holds_at(whole: Seq<char>, part: Seq<char>, at: int, end: int)
    requires
        0 <= at <= end <= whole.len(),
        whole.subrange(at, end) == part,
    ensures
        holds(whole, part),
{
    assert(end == at + part.len());
    assert(whole.subrange(at, at + part.len()) == part);
}

/// The cheatcode that deploys is declared for every choice of named arguments, and so is the one that
/// reads creation code.
pub proof fn law_cheatcodes_cover_every_call(args: bool, value: bool, salt: bool)
    ensures
        holds(rewrite::VM_FUNCTIONS@, deploy_signature(args, value, salt)),
        holds(
            rewrite::VM_FUNCTIONS@,
            "    function getCode(string memory _artifact) external view returns (bytes memory);\n"@,
        ),
{
    reveal_strlit("    function deployCode(string memory _artifact) external returns (address);
    function deployCode(string memory _artifact, bytes32 _salt) external returns (address);
    function deployCode(string memory _artifact, bytes memory _args) external returns (address);
    function deployCode(string memory _artifact, bytes memory _args, bytes32 _salt) external returns (address);
    function deployCode(string memory _artifact, uint256 _value) external returns (address);
    function deployCode(string memory _artifact, uint256 _value, bytes32 _salt) external returns (address);
    function deployCode(string memory _artifact, bytes memory _args, uint256 _value) external returns (address);
    function deployCode(string memory _artifact, bytes memory _args, uint256 _value, bytes32 _salt) external returns (address);
    function getCode(string memory _artifact) external view returns (bytes memory);
");
    reveal_strlit("    function getCode(string memory _artifact) external view returns (bytes memory);\n");
    reveal_strlit("    function deployCode(string memory _artifact");
    reveal_strlit(", bytes memory _args");
    reveal_strlit(", uint256 _value");
    reveal_strlit(", bytes32 _salt");
    reveal_strlit(") external returns (address);\n");
    let all = rewrite::VM_FUNCTIONS@;
    let code = "    function getCode(string memory _artifact) external view returns (bytes memory);\n"@;
    let (start, end) = match (args, value, salt) {
        (false, false, false) => (0int, 77int),
        (false, false, true) => (77int, 169int),
        (true, false, false) => (169int, 266int),
        (true, false, true) => (266int, 378int),
        (false, true, false) => (378int, 471int),
        (false, true, true) => (471int, 579int),
        (true, true, false) => (579int, 692int),
        (true, true, true) => (692int, 820int),
    };
    assert(all.subrange(start, end) =~= deploy_signature(args, value, salt));
    lemma_holds_at(all, deploy_signature(args, value, salt), start, end);
    assert(all.subrange(820, 904) =~= code);
    lemma_holds_at(all, code, 820, 904);
}

/// Updates are ordered by where they start, then by where they end, then by the first character in
/// which their texts differ, or by length where one continues the other.
pub proof fn law_updates_are_ordered_by_place(
    a: UpdateView,
    b: UpdateView,
    common: Seq<char>,
    x: char,
    y: char,
    a_rest: Seq<char>,
    b_rest: Seq<char>,
)
    ensures
        a.start < b.start ==> a.precedes(b) && !b.precedes(a),
        a.start == b.start && a.end < b.end ==> a.precedes(b) && !b.precedes(a),
        a.start == b.start && a.end == b.end && a.text == common.push(x) + a_rest && b.text
            == common.push(y) + b_rest && (x as int) < (y as int) ==> a.precedes(b) && !b.precedes(a),
        a.start == b.start && a.end == b.end && a.text == common && b.text == common.push(y) + b_rest
            ==> a.precedes(b) && !b.precedes(a),
        !a.precedes(a),
{
    let k = common.len() as int;
    if a.start == b.start && a.end == b.end {
        if a.text == common.push(x) + a_rest && b.text == common.push(y) + b_rest && (x as int) < (
        y as int) {
            assert(a.text.take(k) =~= b.text.take(k));
            assert(a.text[k] == x && b.text[k] == y);
            assert(text::precedes(a.text, b.text));
        }
        if a.text == common && b.text == common.push(y) + b_rest {
            assert(a.text.take(k) =~= b.text.take(k));
            assert(text::precedes(a.text, b.text));
        }
        if text::precedes(a.text, b.text) && text::precedes(b.text, a.text) {
            text::lemma_precedes_transitive(a.text, b.text, a.text);
            text::lemma_precedes_irreflexive(a.text);
        }
    }
    if text::precedes(a.text, a.text) {
        text::lemma_precedes_irreflexive(a.text);
    }
}

proof fn lemma_encode_both(front: Seq<char>, back: Seq<char>)
    ensures
        vstd::utf8::encode_utf8(front + back) == vstd::utf8::encode_utf8(front)
            + vstd::utf8::encode_utf8(back),
    decreases front.len(),
{
    let whole = front + back;
    if front.len() == 0 {
        assert(whole =~= back);
        assert(vstd::utf8::encode_utf8(front) =~= Seq::empty());
        assert(vstd::utf8::encode_utf8(whole) =~= vstd::utf8::encode_utf8(front)
            + vstd::utf8::encode_utf8(back));
    } else {
        assert(whole.drop_first() =~= front.drop_first() + back);
        lemma_encode_both(front.drop_first(), back);
        assert(vstd::utf8::encode_utf8(whole) =~= vstd::utf8::encode_utf8(front)
            + vstd::utf8::encode_utf8(back));
    }
}

proof fn lemma_boundary_behind(front: Seq<char>, back: Seq<char>)
    ensures
        vstd::utf8::is_char_boundary(
            vstd::utf8::encode_utf8(front + back),
            vstd::utf8::encode_utf8(front).len() as int,
        ),
    decreases front.len(),
{
    let whole = front + back;
    let bytes = vstd::utf8::encode_utf8(whole);
    vstd::utf8::encode_utf8_valid_utf8(whole);
    if front.len() > 0 {
        lemma_encode_both(front, back);
        vstd::utf8::encode_utf8_first_scalar(whole);
        assert(whole.drop_first() =~= front.drop_first() + back);
        assert(vstd::utf8::pop_first_scalar(bytes) =~= vstd::utf8::encode_utf8(whole.drop_first()));
        lemma_boundary_behind(front.drop_first(), back);
        assert(whole[0] == front[0]);
        assert(vstd::utf8::encode_utf8(front).len() == vstd::utf8::length_of_first_scalar(bytes)
            + vstd::utf8::encode_utf8(front.drop_first()).len());
    }
}

/// Any run of characters is a slice, and that slice is the run.
pub proof fn law_runs_of_characters_are_slices(front: Seq<char>, part: Seq<char>, back: Seq<char>)
    ensures
        ({
            let start = vstd::utf8::encode_utf8(front).len() as int;
            let end = vstd::utf8::encode_utf8(front + part).len() as int;
            &&& text::is_slice(front + part + back, start, end)
            &&& text::slice_of(front + part + back, start, end) == part
        }),
{
    let whole = front + part + back;
    let start = vstd::utf8::encode_utf8(front).len() as int;
    let end = vstd::utf8::encode_utf8(front + part).len() as int;
    lemma_boundary_behind(front + part, back);
    assert(whole =~= front + (part + back));
    lemma_boundary_behind(front, part + back);
    lemma_encode_both(front + part, back);
    lemma_encode_both(front, part);
    assert(vstd::utf8::encode_utf8(whole).subrange(start, end) =~= vstd::utf8::encode_utf8(part));
    vstd::utf8::encode_utf8_decode_utf8(part);
}

} // verus!
