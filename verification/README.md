# microgpt

A small GPT that learns from a list of names and invents new ones, with its
logic verified in Verus.

The library works with *symbols*: it puts every operation of a run on a tape and
proves which expression each value of the tape stands for. Numbers come in only
when the program evaluates the tape, from front to back.

| module | what it holds |
| --- | --- |
| `tape` | operations, the tape, and the expressions its values stand for |
| `autograd`, `chain_rule` | the reverse sweep, and that it computes derivatives |
| `layers`, `gpt` | the building blocks of the network and its forward pass |
| `params`, `ready` | the parameters of a model, and when it can be used |
| `checkpoint`, `round_trip` | saved models, and that loading undoes saving |
| `text`, `corpus`, `tokenizer` | strings, documents and tokens |
| `train`, `optimizer`, `sampler` | the loss of a document, what a step makes of the parameters, and the making of a new document |
| `exact`, `first_position`, `training` | what the network and its training compute where the arithmetic is exact |
| `agreement`, `inference` | that models with the same numbers compute and write the same |
| `config` | the size of the model, the length of a run, and its other numbers |

`app/` is the program around it: files, random numbers, and the evaluation of the
tape in floating point.

The training data is read from `data/names.txt`, one name on each line.

```sh
microgpt                        # train, save to model.weights, and sample
microgpt train model.weights    # train only
microgpt infer model.weights    # sample from saved weights
```
