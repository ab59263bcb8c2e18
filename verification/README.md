# peripherio

The logic of a peripheral interface abstraction, verified with Verus: driver
packages described by their metadata, device categories and their command
signatures, configuration schemas (merged with the global schemas and checked
with valico; a schema is checked when its references end, that is when each
`$ref` leads within it to a part without references), the C struct layout of configurations and command arguments,
the selection of drivers that suit a request, `key=value` argument parsing
(with the MessagePack encoding of integer and text values), the MessagePack
form in which configurations and command values travel,
and the C header skeleton of a driver package.

- `src/` is the verified library; `src/laws.rs` holds the properties that
  relate its functions.
- `app/` is the command line around it: reading package descriptions, loading
  driver libraries and calling into them.
