use phi2::embedding::Embedding;
use phi2::linear::Linear;

#[test]
fn test_embedding_new() {
    let embedding: Embedding<f32> = Embedding::new(10, 10);
    assert!(embedding.weight.iter().all(|&x| x == 0.0));
}

#[test]
fn embedding_test_embedding_new() {
    let embedding: Embedding<f32> = Embedding::new(10, 10);
    assert_eq!(embedding.embedding_dim() == 10, embedding.num_embeddings() == 10);
}

#[test]
fn test_index() {
    let mut emb = Embedding::<f32>::new(1, 1);
    emb.weight[0] = 1.0;
    let y = vec![1.0; 1];
    assert_eq!(y, emb.index(0));
}

#[test]
fn test_forward_pass() {
    let emb = Embedding::<f32>::new(1, 1);
    assert_eq!(
        emb.forward(&[0, 0])
            .iter()
            .map(|x| *x == 0.0)
            .collect::<Vec<bool>>(),
        vec![true, true]
    );
}

#[test]
fn embedding_forward_rows() {
    let mut emb = Embedding::<i32>::new(2, 3);
    for (slot, value) in emb.weight.iter_mut().zip([1, 2, 3, 4, 5, 6]) {
        *slot = value;
    }
    assert_eq!(emb.forward(&[1, 0]), vec![4, 5, 6, 1, 2, 3]);
    assert_eq!(emb.index(1), vec![4, 5, 6]);
}

#[test]
fn linear_new_fills_defaults() {
    let layer: Linear<i32> = Linear::new(10, 10, false);
    assert_eq!(layer.weight.len(), 100);
    assert!(layer.weight.iter().all(|&x| x == 0));
    let with_bias: Linear<i64> = Linear::new(2, 4, true);
    assert_eq!(with_bias.weight.len(), 8);
}
