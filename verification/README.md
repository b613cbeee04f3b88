# encrypt

File encryption with password-protected keys: a command line program that
encrypts files and directories in their place, and a web service that encrypts
uploads in memory.

`src/` is the library, verified with Verus. It holds the container and key file
formats, and every decision about files, passwords and requests. It touches no
file and no socket: an operation on files is a state that asks for an action and
goes on with the reply. The crates that do the cryptography are called behind
small functions with trusted contracts, in `src/crypto/primitives.rs`,
`src/text.rs` and `src/web/respond.rs`.

| Module | Contents |
| --- | --- |
| `crypto` | master keys, the container format, the key file format |
| `fsops` | encryption, decryption and secure deletion of files and directories |
| `cli` | arguments and the two commands |
| `web` | settings, request checks, uploads and answers |
| `bytes`, `text`, `paths` | what the others have in common |

Proof functions whose names begin with `law_` state what holds of the library as
a whole: that a container decrypts to what it was made of, that a truncated one
does not decrypt, that a file is deleted only when its ciphertext is on the disk,
that nothing is written outside the directory of a container, that an operation
in which nothing fails succeeds, that a directory tree that was encrypted comes
back.

`app/` is the program around the library. It carries the actions out. Started as
`encrypt-web` it is the web service, which reads its pages from the directory
`web`.

`tests/` runs the library on concrete values.
