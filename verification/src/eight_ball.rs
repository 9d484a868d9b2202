//! The Magic 8 Ball's fixed answers, and the draw of one of them. Sending
//! the reply stays with the command layer.

use vstd::prelude::*;

use crate::rng::random_below;

verus! {

/// The twenty classic answers, in their fixed order.
pub open spec fn answers_spec() -> Seq<Seq<char>> {
    seq![
        "It is certain."@,
        "It is decidedly so."@,
        "Without a doubt."@,
        "Yes definitely."@,
        "You may rely on it."@,
        "As I see it, yes."@,
        "Most likely."@,
        "Outlook good."@,
        "Yes."@,
        "Signs point to yes."@,
        "Reply hazy, try again."@,
        "Ask again later."@,
        "Better not tell you now."@,
        "Cannot predict now."@,
        "Concentrate and ask again."@,
        "Don't count on it."@,
        "My reply is no."@,
        "My sources say no."@,
        "Outlook not so good."@,
        "Very doubtful."@,
    ]
}

/// The answers, as [`answers_spec`] lists them.
pub fn answers() -> (r: Vec<&'static str>)
    ensures
        r@.map_values(|s: &str| s@) == answers_spec(),
        r@.len() == 20,
{
    let mut r: Vec<&'static str> = Vec::new();
    r.push("It is certain.");
    r.push("It is decidedly so.");
    r.push("Without a doubt.");
    r.push("Yes definitely.");
    r.push("You may rely on it.");
    r.push("As I see it, yes.");
    r.push("Most likely.");
    r.push("Outlook good.");
    r.push("Yes.");
    r.push("Signs point to yes.");
    r.push("Reply hazy, try again.");
    r.push("Ask again later.");
    r.push("Better not tell you now.");
    r.push("Cannot predict now.");
    r.push("Concentrate and ask again.");
    r.push("Don't count on it.");
    r.push("My reply is no.");
    r.push("My sources say no.");
    r.push("Outlook not so good.");
    r.push("Very doubtful.");
    proof {
        assert(r@.map_values(|s: &str| s@) =~= answers_spec());
    }
    r
}

/// One answer, drawn at random: always one of [`answers_spec`].
pub fn random_answer() -> (r: &'static str)
    ensures
        answers_spec().contains(r@),
{
    let table = answers();
    let pick = random_below(table.len());
    let r = table[pick];
    proof {
        assert(answers_spec()[pick as int] == r@);
    }
    r
}

} // verus!
