//! The arguments of the program.

use vstd::prelude::*;
use crate::text::joined;

verus! {

/// What the arguments ask for.
#[derive(Debug)]
pub enum Command<T> {
    /// To encrypt what stands at this path.
    Encrypt(T),
    /// To decrypt what stands at this path with this key file.
    Decrypt(T, T),
    /// Nothing: there are too few arguments for this program.
    Usage(T),
    /// Nothing: there is no key file to decrypt with.
    MissingKeyFile,
    /// Nothing: there is no such command.
    Unknown,
}

impl View for Command<String> {
    type V = Command<Seq<char>>;

    open spec fn view(&self) -> Command<Seq<char>> {
        match *self {
            Command::Encrypt(path) => Command::Encrypt(path@),
            Command::Decrypt(path, key) => Command::Decrypt(path@, key@),
            Command::Usage(program) => Command::Usage(program@),
            Command::MissingKeyFile => Command::MissingKeyFile,
            Command::Unknown => Command::Unknown,
        }
    }
}

/// What the arguments ask for, the name of the program being the first.
pub open spec fn command_of(args: Seq<String>) -> Command<Seq<char>> {
    if args.len() < 3 {
        Command::Usage(args[0]@)
    } else if args[1]@ == "encrypt"@ {
        Command::Encrypt(args[2]@)
    } else if args[1]@ == "decrypt"@ {
        if args.len() < 4 {
            Command::MissingKeyFile
        } else {
            Command::Decrypt(args[2]@, args[3]@)
        }
    } else {
        Command::Unknown
    }
}

/// What the arguments ask for, the name of the program being the first.
pub fn parse_args(args: &Vec<String>) -> (command: Command<String>)
    requires
        args@.len() > 0,
    ensures
        command@ == command_of(args@),
{
    if args.len() < 3 {
        return Command::Usage(args[0].clone());
    }
    if args[1] == "encrypt".to_owned() {
        return Command::Encrypt(args[2].clone());
    }
    if args[1] == "decrypt".to_owned() {
        if args.len() < 4 {
            return Command::MissingKeyFile;
        }
        return Command::Decrypt(args[2].clone(), args[3].clone());
    }
    Command::Unknown
}

/// What is shown when the arguments ask for nothing.
pub open spec fn complaint_of(command: Command<Seq<char>>) -> Option<Seq<char>> {
    match command {
        Command::Usage(program) => Some(
            "Usage:\n  Encrypt: "@ + program + " encrypt <path>\n  Decrypt: "@ + program
                + " decrypt <path> <keyfile>"@,
        ),
        Command::MissingKeyFile => Some("Error: Please specify the .key file for decryption."@),
        Command::Unknown => Some("Invalid command. Use 'encrypt' or 'decrypt'."@),
        _ => None,
    }
}

/// What is shown when the arguments ask for nothing.
pub fn complaint(command: &Command<String>) -> (text: Option<String>)
    ensures
        match text {
            Some(t) => complaint_of(command@) == Some(t@),
            None => complaint_of(command@) is None,
        },
{
    match command {
        Command::Usage(program) => {
            let mut text = joined("Usage:\n  Encrypt: ", program.as_str());
            text.append(" encrypt <path>\n  Decrypt: ");
            text.append(program.as_str());
            text.append(" decrypt <path> <keyfile>");
            Some(text)
        },
        Command::MissingKeyFile => {
            Some("Error: Please specify the .key file for decryption.".to_owned())
        },
        Command::Unknown => Some("Invalid command. Use 'encrypt' or 'decrypt'.".to_owned()),
        _ => None,
    }
}

/// The second argument names the command, and what follows is handed to it as it
/// is: whatever the paths are, and whatever follows them.
pub proof fn law_arguments_are_handed_on(args: Seq<String>)
    requires
        args.len() > 0,
    ensures
        command_of(args) matches Command::Encrypt(path) <==> args.len() >= 3 && args[1]@
            == "encrypt"@,
        command_of(args) matches Command::Encrypt(path) ==> path == args[2]@,
        command_of(args) matches Command::Decrypt(path, key) <==> args.len() >= 4 && args[1]@
            == "decrypt"@,
        command_of(args) matches Command::Decrypt(path, key) ==> path == args[2]@ && key
            == args[3]@,
        command_of(args) matches Command::Usage(program) <==> args.len() <= 2,
        command_of(args) matches Command::Usage(program) ==> program == args[0]@,
        command_of(args) is MissingKeyFile <==> args.len() == 3 && args[1]@ == "decrypt"@,
{
    reveal_strlit("encrypt");
    reveal_strlit("decrypt");
    assert("encrypt"@[0] == 'e' && "decrypt"@[0] == 'd');
}

/// Something is shown for exactly those arguments that ask for nothing.
pub proof fn law_only_useless_arguments_are_complained_about(args: Seq<String>)
    requires
        args.len() > 0,
    ensures
        complaint_of(command_of(args)) is None <==> (args.len() >= 3 && args[1]@ == "encrypt"@
            || args.len() >= 4 && args[1]@ == "decrypt"@),
{
    law_arguments_are_handed_on(args);
}

} // verus!
