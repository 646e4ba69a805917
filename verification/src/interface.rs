use vstd::prelude::*;

use crate::digits::dec_value;
use crate::digits::numeral_body;
use crate::digits::parse_u64;
use crate::digits::parses_as_u64;

verus! {

pub type CommandResult = Result<Command, CommandError>;

/// One already-validated command for the driver loop: the first word of a
/// line of input decides the variant, the remaining words its arguments.
#[derive(Debug, PartialEq)]
pub enum Command {
    Deposit(String, u64),
    Withdraw(String, u64),
    Send(String, String, u64),
    Quit,
    Print,
    Help,
}

/// Why a line of input could not be read as a command.
#[derive(Debug)]
pub enum CommandError {
    WrongNumberOfArguments,
    UnknownArgument(String),
    WrongArgumentType(String),
}

/// Whether `c` counts as a letter in an account name.
pub uninterp spec fn alphabetic(c: char) -> bool;

/// Relies on `char::is_alphabetic`: returns whether the character has the
/// Unicode `Alphabetic` property, a fact about the character alone.
#[verifier::external_body]
fn char_is_alphabetic(c: char) -> (r: bool)
    ensures
        r == alphabetic(c),
{
    c.is_alphabetic()
}

/// Whether every character of `s` is a letter.  The empty sequence counts
/// as all-letter: an empty name token passes the check vacuously.
pub open spec fn all_alphabetic(s: Seq<char>) -> bool {
    forall|i: int| 0 <= i < s.len() ==> alphabetic(#[trigger] s[i])
}

/// A line split on single spaces, keeping empty words: one word more than
/// there are spaces, so the result is never empty.
pub open spec fn split_tokens(s: Seq<char>) -> Seq<Seq<char>>
    decreases s.len(),
{
    if s.len() == 0 {
        seq![Seq::<char>::empty()]
    } else if s[0] == ' ' {
        seq![Seq::<char>::empty()] + split_tokens(s.drop_first())
    } else {
        let rest = split_tokens(s.drop_first());
        seq![seq![s[0]] + rest[0]] + rest.drop_first()
    }
}

proof fn lemma_split_tokens_nonempty(s: Seq<char>)
    ensures
        split_tokens(s).len() >= 1,
    decreases s.len(),
{
    if s.len() > 0 {
        lemma_split_tokens_nonempty(s.drop_first());
    }
}

/// The complaint for a token that is not all letters.
pub open spec fn name_error_text() -> Seq<char> {
    "expected a name as an account"@
}

/// The complaint for a token that is not an unsigned decimal numeral.
pub open spec fn amount_error_text() -> Seq<char> {
    "expected non-negative integer as amount"@
}

/// What parsing a `deposit` line yields from its tokens: the checks run in
/// order — word count, account name, amount — and the first to fail names
/// the error; extra tokens beyond the expected count are ignored.
pub open spec fn deposit_parse_post(toks: Seq<Seq<char>>, r: CommandResult) -> bool {
    if toks.len() < 3 {
        r matches Err(CommandError::WrongNumberOfArguments)
    } else if !all_alphabetic(toks[1]) {
        r matches Err(CommandError::WrongArgumentType(m)) && m@ == name_error_text()
    } else if !parses_as_u64(toks[2]) {
        r matches Err(CommandError::WrongArgumentType(m)) && m@ == amount_error_text()
    } else {
        r matches Ok(Command::Deposit(name, amount)) && name@ == toks[1] && amount == dec_value(
            numeral_body(toks[2]),
        )
    }
}

/// What parsing a `withdraw` line yields from its tokens; the checks are
/// those of [`deposit_parse_post`].
pub open spec fn withdraw_parse_post(toks: Seq<Seq<char>>, r: CommandResult) -> bool {
    if toks.len() < 3 {
        r matches Err(CommandError::WrongNumberOfArguments)
    } else if !all_alphabetic(toks[1]) {
        r matches Err(CommandError::WrongArgumentType(m)) && m@ == name_error_text()
    } else if !parses_as_u64(toks[2]) {
        r matches Err(CommandError::WrongArgumentType(m)) && m@ == amount_error_text()
    } else {
        r matches Ok(Command::Withdraw(name, amount)) && name@ == toks[1] && amount == dec_value(
            numeral_body(toks[2]),
        )
    }
}

/// What parsing a `send` line yields from its tokens: word count, sender
/// name, recipient name, amount, in that order.
pub open spec fn send_parse_post(toks: Seq<Seq<char>>, r: CommandResult) -> bool {
    if toks.len() < 4 {
        r matches Err(CommandError::WrongNumberOfArguments)
    } else if !all_alphabetic(toks[1]) {
        r matches Err(CommandError::WrongArgumentType(m)) && m@ == name_error_text()
    } else if !all_alphabetic(toks[2]) {
        r matches Err(CommandError::WrongArgumentType(m)) && m@ == name_error_text()
    } else if !parses_as_u64(toks[3]) {
        r matches Err(CommandError::WrongArgumentType(m)) && m@ == amount_error_text()
    } else {
        r matches Ok(Command::Send(sender, recipient, amount)) && sender@ == toks[1] && recipient@
            == toks[2] && amount == dec_value(numeral_body(toks[3]))
    }
}

/// What parsing a whole line yields: the first word selects the command,
/// an unknown first word is reported back verbatim.
pub open spec fn parse_args_post(s: Seq<char>, r: CommandResult) -> bool {
    let toks = split_tokens(s);
    let cmd = toks[0];
    if cmd == "deposit"@ {
        deposit_parse_post(toks, r)
    } else if cmd == "withdraw"@ {
        withdraw_parse_post(toks, r)
    } else if cmd == "send"@ {
        send_parse_post(toks, r)
    } else if cmd == "print"@ {
        r matches Ok(Command::Print)
    } else if cmd == "quit"@ {
        r matches Ok(Command::Quit)
    } else if cmd == "help"@ {
        r matches Ok(Command::Help)
    } else {
        r matches Err(CommandError::UnknownArgument(w)) && w@ == cmd
    }
}

/// Splits a line on single spaces, keeping empty words.
fn split_ws(s: &str) -> (r: Vec<String>)
    ensures
        r@.len() == split_tokens(s@).len(),
        forall|i: int| 0 <= i < r@.len() ==> (#[trigger] r@[i])@ == split_tokens(s@)[i],
    decreases s@.len(),
{
    let n: usize = s.unicode_len();
    if n == 0 {
        let mut r: Vec<String> = Vec::new();
        r.push(String::new());
        r
    } else if s.get_char(0) == ' ' {
        let tail = s.substring_char(1, n);
        proof {
            assert(tail@ =~= s@.drop_first());
        }
        let mut rest = split_ws(tail);
        rest.insert(0, String::new());
        proof {
            let st = split_tokens(s@);
            let dt = split_tokens(s@.drop_first());
            assert forall|i: int| 0 <= i < rest@.len() implies (#[trigger] rest@[i])@
                == st[i] by {
                if i > 0 {
                    assert(st[i] == dt[i - 1]);
                }
            }
        }
        rest
    } else {
        let head_char = s.substring_char(0, 1);
        let tail = s.substring_char(1, n);
        proof {
            assert(tail@ =~= s@.drop_first());
            lemma_split_tokens_nonempty(s@.drop_first());
        }
        let mut rest = split_ws(tail);
        let ghost rest0 = rest@;
        let old_head = rest.remove(0);
        let mut head = String::from_str(head_char);
        head.append(old_head.as_str());
        rest.insert(0, head);
        proof {
            let st = split_tokens(s@);
            let dt = split_tokens(s@.drop_first());
            assert(head_char@ =~= seq![s@[0]]);
            assert(head@ == seq![s@[0]] + dt[0]);
            assert(st[0] == seq![s@[0]] + dt[0]);
            assert forall|i: int| 0 <= i < rest@.len() implies (#[trigger] rest@[i])@
                == st[i] by {
                if i > 0 {
                    assert(rest@[i] == rest0.remove(0)[i - 1]);
                    assert(rest0.remove(0)[i - 1] == rest0[i]);
                    assert(st[i] == dt.drop_first()[i - 1]);
                }
            }
        }
        rest
    }
}

impl Command {
    /// Reads one line of input as a command: the line is split on spaces,
    /// the first word selects the command, and the remaining words are
    /// validated as account names and amounts.
    pub fn parse_args(args: String) -> (r: CommandResult)
        ensures
            parse_args_post(args@, r),
    {
        let tokens = split_ws(args.as_str());
        proof {
            lemma_split_tokens_nonempty(args@);
            assert(tokens@.map_values(|t: String| t@) =~= split_tokens(args@));
        }
        let cmd: &String = &tokens[0];
        if *cmd == String::from_str("deposit") {
            Self::parse_deposit(&tokens)
        } else if *cmd == String::from_str("withdraw") {
            Self::parse_withdraw(&tokens)
        } else if *cmd == String::from_str("send") {
            Self::parse_send(&tokens)
        } else if *cmd == String::from_str("print") {
            Ok(Command::Print)
        } else if *cmd == String::from_str("quit") {
            Ok(Command::Quit)
        } else if *cmd == String::from_str("help") {
            Ok(Command::Help)
        } else {
            Err(CommandError::UnknownArgument(cmd.clone()))
        }
    }

    /// The `deposit` arguments: an account name and an amount.
    fn parse_deposit(args: &Vec<String>) -> (r: CommandResult)
        ensures
            deposit_parse_post(args@.map_values(|t: String| t@), r),
    {
        if args.len() < 3 {
            return Err(CommandError::WrongNumberOfArguments);
        }
        let name = match Self::is_account_name(args[1].as_str()) {
            Ok(w) => w,
            Err(e) => {
                return Err(e);
            },
        };
        let amount = match parse_u64(args[2].as_str()) {
            Some(a) => a,
            None => {
                return Err(
                    CommandError::WrongArgumentType(
                        String::from_str("expected non-negative integer as amount"),
                    ),
                );
            },
        };
        Ok(Command::Deposit(String::from_str(name), amount))
    }

    /// The `withdraw` arguments: an account name and an amount.
    fn parse_withdraw(args: &Vec<String>) -> (r: CommandResult)
        ensures
            withdraw_parse_post(args@.map_values(|t: String| t@), r),
    {
        if args.len() < 3 {
            return Err(CommandError::WrongNumberOfArguments);
        }
        let name = match Self::is_account_name(args[1].as_str()) {
            Ok(w) => w,
            Err(e) => {
                return Err(e);
            },
        };
        let amount = match parse_u64(args[2].as_str()) {
            Some(a) => a,
            None => {
                return Err(
                    CommandError::WrongArgumentType(
                        String::from_str("expected non-negative integer as amount"),
                    ),
                );
            },
        };
        Ok(Command::Withdraw(String::from_str(name), amount))
    }

    /// The `send` arguments: sender and recipient names and an amount.
    fn parse_send(args: &Vec<String>) -> (r: CommandResult)
        ensures
            send_parse_post(args@.map_values(|t: String| t@), r),
    {
        if args.len() < 4 {
            return Err(CommandError::WrongNumberOfArguments);
        }
        let sender = match Self::is_account_name(args[1].as_str()) {
            Ok(w) => w,
            Err(e) => {
                return Err(e);
            },
        };
        let recipient = match Self::is_account_name(args[2].as_str()) {
            Ok(w) => w,
            Err(e) => {
                return Err(e);
            },
        };
        let amount = match parse_u64(args[3].as_str()) {
            Some(a) => a,
            None => {
                return Err(
                    CommandError::WrongArgumentType(
                        String::from_str("expected non-negative integer as amount"),
                    ),
                );
            },
        };
        Ok(Command::Send(String::from_str(sender), String::from_str(recipient), amount))
    }

    /// Accepts a word as an account name exactly when every character is a
    /// letter.
    fn is_account_name<'a>(word: &'a str) -> (r: Result<&'a str, CommandError>)
        ensures
            all_alphabetic(word@) ==> (r matches Ok(w) && w@ == word@),
            !all_alphabetic(word@) ==> (r matches Err(CommandError::WrongArgumentType(m)) && m@
                == name_error_text()),
    {
        let n: usize = word.unicode_len();
        let mut i: usize = 0;
        while i < n
            invariant
                i <= n,
                n == word@.len(),
                forall|j: int| 0 <= j < i ==> alphabetic(#[trigger] word@[j]),
            decreases n - i,
        {
            if !char_is_alphabetic(word.get_char(i)) {
                return Err(
                    CommandError::WrongArgumentType(
                        String::from_str("expected a name as an account"),
                    ),
                );
            }
            i += 1;
        }
        Ok(word)
    }
}

} // verus!
