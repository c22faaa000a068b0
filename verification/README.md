# valkey-faces

Local face recognition with Valkey as the vector store: camera in, names out.

`src/` is the library, written in Verus. Its functions are verified but for a few short ones that
only call the standard library or the `image` crate; what is taken on trust of those calls stands in
their contracts and doc comments, in `images`, `reply`, `slug` and `text`.

| Module | What it holds |
|---|---|
| `face` | the order of faces, the rectangle round a face, the picture that is embedded |
| `images` | what is asked of the `image` crate |
| `names` | the order of names, sets of names, counting entries by name |
| `reply` | the replies of the store, and the hits in them |
| `report` | the lines that the commands print |
| `slug` | the part of a key that stands for a name |
| `store` | keys, enrolling, and the commands to the store |
| `text` | numerals |
| `vector` | packed vectors |
| `watch` | the frame tap's command line, and who enters and leaves |

`app/` is the program round it: arguments, reading and decoding image files, ffmpeg, the connection
to the store, and the two models, which compute in floating point. Numbers in floating point reach the library as their bits
or as text.

A function whose name starts with `law_` states something that holds of the library as a whole.
