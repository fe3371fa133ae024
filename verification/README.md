# candle-rlcd

Typed decisions from a ModernBERT encoder on Candle: `choice`, `score` and `noul` questions about a
state, answered in one forward pass, with a server, a trainer, calibration and a load generator.

`src/` is the verified library. It holds everything that is decided or computed without floating
point or I/O, with its contracts and the laws that relate its functions:

| modules | what |
|---|---|
| `json`, `text`, `float`, `random` | documents, texts, numbers by their bits, the generator |
| `sequence`, `pipeline`, `tournament`, `plan` | questions, rows, chunks, option batches, rounds |
| `model`, `agent`, `config`, `tokenizer` | who sees whom, batch tables, answers, settings, tokenizers |
| `data`, `convert`, `augment` | training records, dataset converters, augmentation |
| `train`, `calibrate` | the course of a run, checkpoints, which temperatures are refit |
| `validate`, `serve`, `engine`, `metrics` | requests, replies, batching, the metrics page |
| `hub`, `bench`, `cli` | model references, the load generator, arguments |

`app/` is the program around it: tensors, threads, files, HTTP and the command line. `tests/` runs
the library.
