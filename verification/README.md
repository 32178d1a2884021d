# temporal

A desktop workspace engine: it captures the windows of a desktop with what is
open in them, describes and groups them, finds them again by meaning, and
brings them back.

`src/` holds the rules, written in Verus. Every function states what it returns
for every input; what the rules promise as a whole (that no refused address is
ever reopened, that clustering loses no item, that a frame reads back as it was
written) stands beside the functions as public proof functions. Texts are
modelled as character sequences and every data type by its deep view. Scores
and coordinates are carried as the bit patterns of doubles, which the rules only
compare (`doubles`).

What the proofs rest on is marked in the source: a few functions of the standard
library, and calls into `serde_json`, `percent-encoding` and `uuid`, each with a
comment that says what is taken for granted of it.

`app/` is the program around the rules: the daemon and its socket, the command
line, SQLite storage, the embedding model, floating-point arithmetic, and the
macOS interfaces. `tests/` runs the rules on concrete values.
