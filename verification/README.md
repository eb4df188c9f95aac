# cursor_tab

Edit predictions from a streaming completion service, with the logic verified by Verus.

- `src/` is the verified library: the framing of messages, the accumulation of a stream into
  edits, the planning of replacements and of the cursor's next place, the building of
  requests, the synchronisation of files, and the provider's state. Each public function
  states in its contract what it returns; the public proof functions state what holds across
  functions.
- `tests/` runs the library.
- `app/` connects the library to the editor and to the network. It holds the protobuf
  messages and everything that deals with floating point numbers; in the library such
  numbers are carried by their encoding.

The library takes two things from its caller as functions: one that reads a message from
bytes, and one that gives the edits between two texts. The second has to lead from the first
text to the second, with edits that stand in order and apart.
