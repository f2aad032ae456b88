# ivf_fraud

A fraud score for card transactions. A transaction becomes a vector of 14 coordinates; its score is
the share of frauds among the five nearest rows of an inverted-file (IVF) index.

`src/` is the verified library:

- `single`, `decimals`: single-precision numbers by their bits, and how they compare
- `bytes`, `index`: the index file
- `top5`, `scan`, `probe`, `extreme`, `config`, `search`: the search
- `exact`: when a search is as good as looking at every row
- `text`, `calendar`, `json`, `payload`: requests, and the vectors made of them
- `compact`, `agreement`: written requests are read back, and both ways of reading agree
- `http`, `session`: requests in a stream of bytes, and their answers

`app/` is the server around it: sockets, files, JSON documents and the arithmetic in floating
point. `tests/` runs the library on concrete values.
