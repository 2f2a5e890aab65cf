# x_hosts

The verified core of x-hosts, a desktop editor for the system hosts file.

`src/` is a Verus library. Verus proves the contract of every function
there, except the small wrappers marked `#[verifier::external_body]` that
call `std`, `chrono`, `uuid` and `encoding_rs`: their contracts are trusted,
and each one's doc comment says what it claims of the call.

- `text`: the `str` operations that the editor uses (`lines`, `trim`,
  `split_whitespace`, `split`, `join`, `matches().count()`), written as spec
  functions over characters and implemented over `Vec<char>`.
- `models`: host mappings, hosts lines and backups, with their views.
- `hosts_parser`: reading a hosts text into lines and writing lines back, and
  the laws that connect the two (what is written reads back as the same
  mappings).
- `hosts_service`: listing, adding, deleting and toggling mappings; the
  GitHub block (taking it from a remote text and merging it into the local
  one); the remote URL; the hosts path.
- `codec`: decoding file and command output (UTF-8, else GBK).
- `diagnostic_log`: the summary of a text and the lines of the log.
- `clock`: the time patterns, the shapes `chrono` writes for them, and the
  seconds since the epoch of a file time.
- `backup_service`: backup names, their creation labels and the
  newest-first order of backups.
- `dns_service`, `elevation`: which commands to run to flush the DNS cache
  and to gain administrator rights, and what their outcomes mean.
- `commands`: the shared state of the application's commands.

`app/` is the Tauri application around the library: files, the network,
processes, the environment, and the commands that the frontend calls.

`tests/` runs the library on concrete inputs.
